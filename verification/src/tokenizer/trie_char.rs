//! The dictionary: a set of words and a trie over their characters, which
//! lists the words that a text starts with.

use crate::four_bytes_str::custom_string::{trimmed, CustomString};
use rustc_hash::{FxHashMap, FxHashSet};
use vstd::prelude::*;

verus! {

/// The words that a set of words holds, each as its characters.
pub uninterp spec fn word_set_contents(s: FxHashSet<Vec<char>>) -> Set<Seq<char>>;

/// `FxHashSet::default`: a set without words.
#[verifier::external_body]
fn word_set_new() -> (s: FxHashSet<Vec<char>>)
    ensures
        word_set_contents(s) == Set::<Seq<char>>::empty(),
{
    FxHashSet::default()
}

/// `HashSet::insert` with the Fx hasher: the set holds the word afterwards,
/// and the result says whether it was new.
#[verifier::external_body]
fn word_set_insert(s: &mut FxHashSet<Vec<char>>, word: Vec<char>) -> (fresh: bool)
    ensures
        word_set_contents(*final(s)) == word_set_contents(*old(s)).insert(word@),
        fresh == !word_set_contents(*old(s)).contains(word@),
{
    s.insert(word)
}

/// `HashSet::remove` with the Fx hasher: the set does not hold the word
/// afterwards, and the result says whether it did before.
#[verifier::external_body]
fn word_set_remove(s: &mut FxHashSet<Vec<char>>, word: &[char]) -> (found: bool)
    ensures
        word_set_contents(*final(s)) == word_set_contents(*old(s)).remove(word@),
        found == word_set_contents(*old(s)).contains(word@),
{
    s.remove(word)
}

/// `HashSet::contains` with the Fx hasher: whether the set holds the word.
#[verifier::external_body]
fn word_set_contains(s: &FxHashSet<Vec<char>>, word: &[char]) -> (found: bool)
    ensures
        found == word_set_contents(*s).contains(word@),
{
    s.contains(word)
}

/// `HashSet::len`: the number of words in the set.
#[verifier::external_body]
fn word_set_len(s: &FxHashSet<Vec<char>>) -> (n: usize)
    ensures
        n == word_set_contents(*s).len(),
{
    s.len()
}

/// A node of the trie: its children by their character, and whether a word
/// ends here.
#[derive(Debug)]
pub struct TrieNode {
    children: FxHashMap<char, TrieNode>,
    end: bool,
}

/// `FxHashMap::default`: a map without children.
#[verifier::external_body]
fn children_new() -> (m: FxHashMap<char, TrieNode>)
    ensures
        forall|c: char| !m@.contains_key(c),
{
    FxHashMap::default()
}

/// `HashMap::get` with the Fx hasher: the child under `c`, if there is one.
#[verifier::external_body]
fn children_get<'a>(m: &'a FxHashMap<char, TrieNode>, c: char) -> (r: Option<&'a TrieNode>)
    ensures
        r is Some == m@.contains_key(c),
        r is Some ==> *r->0 == m@[c],
{
    m.get(&c)
}

/// `HashMap::remove` with the Fx hasher: takes the child under `c` out of
/// the map and returns it, if there is one.
#[verifier::external_body]
fn children_remove(m: &mut FxHashMap<char, TrieNode>, c: char) -> (r: Option<TrieNode>)
    ensures
        final(m)@ == old(m)@.remove(c),
        r is Some == old(m)@.contains_key(c),
        r is Some ==> r->0 == old(m)@[c],
{
    m.remove(&c)
}

/// `HashMap::insert` with the Fx hasher: `node` is the child under `c`
/// afterwards.
#[verifier::external_body]
fn children_insert(m: &mut FxHashMap<char, TrieNode>, c: char, node: TrieNode)
    ensures
        final(m)@ == old(m)@.insert(c, node),
{
    m.insert(c, node);
}

/// `HashMap::is_empty`: whether the map holds no child.
#[verifier::external_body]
fn children_is_empty(m: &FxHashMap<char, TrieNode>) -> (r: bool)
    ensures
        r == (forall|c: char| !m@.contains_key(c)),
{
    m.is_empty()
}

impl Default for TrieNode {
    /// A node without children at which no word ends.
    fn default() -> (r: Self)
        ensures
            r.is_leaf(),
            r.pruned(),
            forall|w: Seq<char>| !r.accepts(w),
    {
        Self::new()
    }
}

impl TrieNode {
    /// Whether the path of the characters of `w`, from this node down, ends
    /// at a node where a word ends.
    pub closed spec fn accepts(&self, w: Seq<char>) -> bool
        decreases w.len(),
    {
        if w.len() == 0 {
            self.end
        } else {
            self.children@.contains_key(w[0]) && self.children@[w[0]].accepts(w.drop_first())
        }
    }

    /// The node at the end of `path`, from this node down.
    pub closed spec fn node_at(&self, path: Seq<char>) -> Option<TrieNode>
        decreases path.len(),
    {
        if path.len() == 0 {
            Some(*self)
        } else if self.children@.contains_key(path[0]) {
            self.children@[path[0]].node_at(path.drop_first())
        } else {
            None
        }
    }

    /// Some word ends at this node or below it.
    pub closed spec fn has_word(&self) -> bool {
        exists|w: Seq<char>| self.accepts(w)
    }

    /// No node below this one is without a word: what is left of a removed
    /// word has been pruned.
    pub closed spec fn pruned(&self) -> bool {
        forall|path: Seq<char>|
            path.len() > 0 && (#[trigger] self.node_at(path)) is Some ==> self.node_at(
                path,
            )->0.has_word()
    }

    /// This node has no children.
    pub closed spec fn is_leaf(&self) -> bool {
        forall|c: char| !self.children@.contains_key(c)
    }

    /// A node without children at which no word ends.
    pub fn new() -> (r: Self)
        ensures
            r.is_leaf(),
            r.pruned(),
            forall|w: Seq<char>| !r.accepts(w),
    {
        let r = Self { children: children_new(), end: false };
        assert forall|w: Seq<char>| !r.accepts(w) by {
            reveal_with_fuel(TrieNode::accepts, 2);
        }
        assert forall|path: Seq<char>| path.len() > 0 implies (#[trigger] r.node_at(path)) is None by {
            reveal_with_fuel(TrieNode::node_at, 2);
        }
        r
    }

    proof fn lemma_pruned_child(&self, c: char)
        requires
            self.pruned(),
            self.children@.contains_key(c),
        ensures
            self.children@[c].pruned(),
            self.children@[c].has_word(),
    {
        let child = self.children@[c];
        assert forall|path: Seq<char>|
            path.len() > 0 && (#[trigger] child.node_at(path)) is Some implies child.node_at(
            path,
        )->0.has_word() by {
            let full = seq![c] + path;
            assert(full.drop_first() =~= path);
            assert(self.node_at(full) == child.node_at(path));
        }
        let one = seq![c];
        assert(one.drop_first().len() == 0);
        assert(self.node_at(one) == child.node_at(one.drop_first()));
        assert(child.node_at(one.drop_first()) == Some(child));
    }

    proof fn lemma_pruned_from_children(&self)
        requires
            forall|c: char| #[trigger]
                self.children@.contains_key(c) ==> self.children@[c].pruned()
                    && self.children@[c].has_word(),
        ensures
            self.pruned(),
    {
        assert forall|path: Seq<char>|
            path.len() > 0 && (#[trigger] self.node_at(path)) is Some implies self.node_at(
            path,
        )->0.has_word() by {
            let c = path[0];
            let child = self.children@[c];
            let rest = path.drop_first();
            assert(self.node_at(path) == child.node_at(rest));
            if rest.len() == 0 {
                assert(child.node_at(rest) == Some(child));
            } else {
                assert(child.pruned());
            }
        }
    }

    /// Adds the word that `word` holds from `from` on, from this node down.
    fn add_word(&mut self, word: &[char], from: usize)
        requires
            from <= word@.len(),
            old(self).pruned(),
        ensures
            final(self).pruned(),
            forall|w: Seq<char>|
                #[trigger] final(self).accepts(w) <==> (old(self).accepts(w) || w == word@.skip(from as int)),
            final(self).end == (old(self).end || from == word@.len()),
        decreases word@.len() - from,
    {
        if from == word.len() {
            self.end = true;
            proof {
                assert(word@.skip(from as int) =~= Seq::<char>::empty());
                assert forall|w: Seq<char>|
                    #[trigger] final(self).accepts(w) <==> (old(self).accepts(w) || w == word@.skip(
                        from as int,
                    )) by {
                    if w.len() == 0 {
                        assert(w =~= Seq::<char>::empty());
                    }
                }
                assert forall|path: Seq<char>| path.len() > 0 implies #[trigger] self.node_at(path) == old(
                    self,
                ).node_at(path) by {}
            }
            return ;
        }
        let c: char = word[from];
        let ghost before = *self;
        let taken = children_remove(&mut self.children, c);
        let mut child = match taken {
            Some(n) => n,
            None => TrieNode::new(),
        };
        let ghost child_before = child;
        proof {
            if taken is Some {
                before.lemma_pruned_child(c);
            }
        }
        child.add_word(word, from + 1);
        children_insert(&mut self.children, c, child);
        proof {
            let tail = word@.skip(from as int);
            assert(tail.drop_first() =~= word@.skip(from + 1));
            assert(tail[0] == c);
            assert(child.accepts(word@.skip(from + 1)));
            assert(child.has_word());
            assert forall|w: Seq<char>|
                #[trigger] self.accepts(w) <==> (before.accepts(w) || w == tail) by {
                if w.len() > 0 {
                    if w[0] == c {
                        assert(self.children@.contains_key(c));
                        assert(self.children@[c] == child);
                        assert(self.accepts(w) == child.accepts(w.drop_first()));
                        if w.drop_first() == tail.drop_first() {
                            assert(w =~= seq![c] + w.drop_first());
                            assert(tail =~= seq![c] + tail.drop_first());
                        }
                        if taken is None {
                            assert(!child_before.accepts(w.drop_first()));
                            assert(!before.accepts(w));
                        } else {
                            assert(before.accepts(w) == child_before.accepts(w.drop_first()));
                        }
                    } else {
                        assert(self.children@.contains_key(w[0]) == before.children@.contains_key(
                            w[0],
                        ));
                        assert(w != tail);
                    }
                } else {
                    assert(self.accepts(w) == self.end);
                    assert(before.accepts(w) == before.end);
                    assert(w != tail);
                }
            }
            assert forall|k: char| #[trigger]
                self.children@.contains_key(k) implies self.children@[k].pruned()
                && self.children@[k].has_word() by {
                if k != c {
                    before.lemma_pruned_child(k);
                }
            }
            self.lemma_pruned_from_children();
        }
    }

    /// Removes the word that `word` holds from `from` on, from this node
    /// down, and prunes the nodes that are left without a word.
    fn remove_word(&mut self, word: &[char], from: usize)
        requires
            from <= word@.len(),
            old(self).pruned(),
        ensures
            final(self).pruned(),
            forall|w: Seq<char>|
                #[trigger] final(self).accepts(w) <==> (old(self).accepts(w) && w != word@.skip(from as int)),
        decreases word@.len() - from,
    {
        if from == word.len() {
            self.end = false;
            proof {
                assert(word@.skip(from as int) =~= Seq::<char>::empty());
                assert forall|w: Seq<char>|
                    #[trigger] final(self).accepts(w) <==> (old(self).accepts(w) && w != word@.skip(
                        from as int,
                    )) by {
                    if w.len() == 0 {
                        assert(w =~= Seq::<char>::empty());
                    }
                }
                assert forall|path: Seq<char>| path.len() > 0 implies #[trigger] self.node_at(path) == old(
                    self,
                ).node_at(path) by {}
            }
            return ;
        }
        let c: char = word[from];
        let ghost before = *self;
        let ghost tail = word@.skip(from as int);
        proof {
            assert(tail.drop_first() =~= word@.skip(from + 1));
            assert(tail[0] == c);
        }
        let taken = children_remove(&mut self.children, c);
        if taken.is_none() {
            proof {
                assert(self.children@ =~= before.children@);
                assert forall|w: Seq<char>|
                    #[trigger] self.accepts(w) <==> (before.accepts(w) && w != tail) by {
                    if w.len() > 0 && w[0] != c {
                        assert(w != tail);
                    }
                }
                assert forall|path: Seq<char>| path.len() > 0 implies #[trigger] self.node_at(path)
                    == before.node_at(path) by {}
            }
            return ;
        }
        let mut child: TrieNode = taken.unwrap();
        let ghost found = child;
        proof {
            before.lemma_pruned_child(c);
        }
        child.remove_word(word, from + 1);
        let keep: bool = child.end || !children_is_empty(&child.children);
        proof {
            if child.end {
                assert(child.accepts(Seq::<char>::empty()));
            } else if keep {
                let k = choose|k: char| child.children@.contains_key(k);
                child.lemma_pruned_child(k);
                let w = choose|w: Seq<char>| child.children@[k].accepts(w);
                let longer = seq![k] + w;
                assert(longer.drop_first() =~= w);
                assert(child.accepts(longer));
            } else {
                assert forall|w: Seq<char>| !child.accepts(w) by {}
            }
        }
        let ghost kept = child;
        if keep {
            children_insert(&mut self.children, c, child);
        }
        proof {
            assert forall|w: Seq<char>|
                #[trigger] self.accepts(w) <==> (before.accepts(w) && w != tail) by {
                if w.len() > 0 {
                    if w[0] == c {
                        assert(before.accepts(w) == found.accepts(w.drop_first()));
                        if keep {
                            assert(self.children@.contains_key(c));
                            assert(self.children@[c] == kept);
                            assert(self.accepts(w) == kept.accepts(w.drop_first()));
                        } else {
                            assert(!self.children@.contains_key(c));
                            assert(!self.accepts(w));
                            assert(!kept.accepts(w.drop_first()));
                        }
                        if w.drop_first() == tail.drop_first() {
                            assert(w =~= seq![c] + w.drop_first());
                            assert(tail =~= seq![c] + tail.drop_first());
                        }
                    } else {
                        assert(self.children@.contains_key(w[0]) == before.children@.contains_key(
                            w[0],
                        ));
                        assert(w != tail);
                    }
                } else {
                    assert(self.accepts(w) == self.end);
                    assert(before.accepts(w) == before.end);
                    assert(w != tail);
                }
            }
            assert forall|k: char| #[trigger]
                self.children@.contains_key(k) implies self.children@[k].pruned()
                && self.children@[k].has_word() by {
                if k != c {
                    before.lemma_pruned_child(k);
                }
            }
            self.lemma_pruned_from_children();
        }
    }
}


/// The characters of each string of `words`.
pub open spec fn word_views(words: Seq<CustomString>) -> Seq<Seq<char>> {
    Seq::new(words.len(), |i: int| words[i]@)
}

/// The dictionary `dict` after `word` was added: white space at the ends of
/// the word does not count, and a word of nothing else is not added.
pub open spec fn with_word(dict: Set<Seq<char>>, word: Seq<char>) -> Set<Seq<char>> {
    if trimmed(word).len() > 0 {
        dict.insert(trimmed(word))
    } else {
        dict
    }
}

/// The dictionary `dict` after `word` was removed.
pub open spec fn without_word(dict: Set<Seq<char>>, word: Seq<char>) -> Set<Seq<char>> {
    dict.remove(trimmed(word))
}

/// The dictionary `dict` after the `words` were added, one after another.
pub open spec fn with_words(dict: Set<Seq<char>>, words: Seq<Seq<char>>) -> Set<Seq<char>>
    decreases words.len(),
{
    if words.len() == 0 {
        dict
    } else {
        with_word(with_words(dict, words.drop_last()), words.last())
    }
}

/// The dictionary `dict` after the `words` were removed, one after another.
pub open spec fn without_words(dict: Set<Seq<char>>, words: Seq<Seq<char>>) -> Set<Seq<char>>
    decreases words.len(),
{
    if words.len() == 0 {
        dict
    } else {
        without_word(without_words(dict, words.drop_last()), words.last())
    }
}

/// The dictionary that is built from a list of words.
pub open spec fn dictionary_of(words: Seq<Seq<char>>) -> Set<Seq<char>> {
    with_words(Set::empty(), words)
}

/// Of the first `n` prefixes of `text`, the shortest first, those that
/// `dict` holds.
pub open spec fn prefixes_upto(dict: Set<Seq<char>>, text: Seq<char>, n: nat) -> Seq<Seq<char>>
    decreases n,
{
    if n == 0 {
        Seq::empty()
    } else {
        let shorter = prefixes_upto(dict, text, (n - 1) as nat);
        if n <= text.len() && dict.contains(text.take(n as int)) {
            shorter.push(text.take(n as int))
        } else {
            shorter
        }
    }
}

/// The words of `dict` that `text` starts with, the shortest first.
pub open spec fn prefixes_of(dict: Set<Seq<char>>, text: Seq<char>) -> Seq<Seq<char>> {
    prefixes_upto(dict, text, text.len())
}

/// A dictionary: the set of its words, and a trie over their characters
/// that holds the same words.
#[derive(Debug)]
pub struct TrieChar {
    words: FxHashSet<Vec<char>>,
    root: TrieNode,
}

impl View for TrieChar {
    type V = Set<Seq<char>>;

    /// The words of the dictionary.
    closed spec fn view(&self) -> Set<Seq<char>> {
        word_set_contents(self.words)
    }
}

impl TrieChar {
    /// The set of words and the trie hold the same words, no word is empty,
    /// and the trie has no node without a word below the root.
    pub closed spec fn wf(&self) -> bool {
        &&& self@.finite()
        &&& forall|w: Seq<char>| self@.contains(w) <==> #[trigger] self.root.accepts(w)
        &&& !self.root.end
        &&& self.root.pruned()
    }

    /// The trie has no node but its root.
    pub closed spec fn is_bare(&self) -> bool {
        self.root.is_leaf()
    }

    /// A well-formed dictionary holds no empty word.
    pub proof fn lemma_no_empty_word(&self)
        requires
            self.wf(),
        ensures
            !self@.contains(Seq::<char>::empty()),
    {
        assert(self.root.accepts(Seq::<char>::empty()) == self.root.end);
    }

    /// The trie of a dictionary without words has no node but its root.
    pub proof fn lemma_no_words_no_nodes(&self)
        requires
            self.wf(),
            self@ =~= Set::<Seq<char>>::empty(),
        ensures
            self.is_bare(),
    {
        assert forall|c: char| !self.root.children@.contains_key(c) by {
            if self.root.children@.contains_key(c) {
                self.root.lemma_pruned_child(c);
                let w = choose|w: Seq<char>| self.root.children@[c].accepts(w);
                let longer = seq![c] + w;
                assert(longer.drop_first() =~= w);
                assert(self.root.accepts(longer));
                assert(self@.contains(longer));
            }
        }
    }

    /// The dictionary of `words`.
    pub fn new(words: &[CustomString]) -> (r: Self)
        ensures
            r.wf(),
            r@ == dictionary_of(word_views(words@)),
    {
        let mut instance = Self { words: word_set_new(), root: TrieNode::new() };
        assert(!instance.root.accepts(Seq::<char>::empty()));
        assert(instance.wf());
        let mut index: usize = 0;
        while index < words.len()
            invariant
                index <= words@.len(),
                instance.wf(),
                instance@ == dictionary_of(word_views(words@).take(index as int)),
            decreases words@.len() - index,
        {
            proof {
                let next = word_views(words@).take(index + 1);
                assert(next.drop_last() =~= word_views(words@).take(index as int));
                assert(next.last() == words@[index as int]@);
            }
            instance.add(&words[index]);
            index += 1;
        }
        assert(word_views(words@).take(index as int) =~= word_views(words@));
        instance
    }

    /// Adds `word`, without the white space at its ends, unless nothing is
    /// left of it.
    pub fn add(&mut self, word: &CustomString)
        requires
            old(self).wf(),
        ensures
            final(self).wf(),
            final(self)@ == with_word(old(self)@, word@),
    {
        let stripped_word = word.trim();
        if !stripped_word.is_empty() {
            let chars: &[char] = stripped_word.get_chars_content();
            proof {
                assert(chars@.skip(0) =~= chars@);
            }
            word_set_insert(&mut self.words, vstd::slice::slice_to_vec(chars));
            self.root.add_word(chars, 0);
            proof {
                assert(self.root.accepts(Seq::<char>::empty()) == self.root.end);
            }
        }
    }

    /// Removes `word`, without the white space at its ends, if the
    /// dictionary holds it.
    pub fn remove(&mut self, word: &CustomString)
        requires
            old(self).wf(),
        ensures
            final(self).wf(),
            final(self)@ == without_word(old(self)@, word@),
    {
        let stripped_word = word.trim();
        let chars: &[char] = stripped_word.get_chars_content();
        if !stripped_word.is_empty() && word_set_contains(&self.words, chars) {
            proof {
                assert(chars@.skip(0) =~= chars@);
            }
            word_set_remove(&mut self.words, chars);
            self.root.remove_word(chars, 0);
            proof {
                assert(self.root.accepts(Seq::<char>::empty()) == self.root.end);
                assert(old(self).root.accepts(Seq::<char>::empty()) == old(self).root.end);
            }
        } else {
            proof {
                self.lemma_no_empty_word();
                if stripped_word@.len() == 0 {
                    assert(trimmed(word@) =~= Seq::<char>::empty());
                }
                assert(self@.remove(trimmed(word@)) =~= self@);
            }
        }
    }

    /// Whether the dictionary holds the characters of `word` as a word.
    pub fn contain(&self, word: &CustomString) -> (r: bool)
        ensures
            r == self@.contains(word@),
    {
        word_set_contains(&self.words, word.get_chars_content())
    }

    /// The number of words in the dictionary.
    pub fn amount_of_words(&self) -> (n: usize)
        ensures
            n == self@.len(),
    {
        word_set_len(&self.words)
    }

    /// Whether the trie has no node but its root.
    pub fn has_only_root(&self) -> (r: bool)
        ensures
            r == self.is_bare(),
    {
        children_is_empty(&self.root.children)
    }

    /// The words of the dictionary that `prefix` starts with, the shortest
    /// first, each as a slice of the characters of `prefix`.
    pub fn prefix_ref<'p>(prefix: &'p CustomString, dict_trie: &Self) -> (r: Vec<&'p [char]>)
        requires
            dict_trie.wf(),
        ensures
            r@.len() == prefixes_of(dict_trie@, prefix@).len(),
            forall|i: int| 0 <= i < r@.len() ==> (#[trigger] r@[i])@ == prefixes_of(dict_trie@, prefix@)[i],
    {
        let chars: &'p [char] = prefix.get_chars_content();
        let mut result: Vec<&'p [char]> = Vec::new();
        let mut current_index: usize = 0;
        let mut node: &TrieNode = &dict_trie.root;
        let ghost dict = dict_trie@;
        let ghost text = prefix@;
        proof {
            assert forall|w: Seq<char>| #[trigger]
                node.accepts(w) <==> dict_trie.root.accepts(text.take(0) + w) by {
                assert(text.take(0) + w =~= w);
            }
        }
        let mut walking: bool = true;
        while walking && current_index < chars.len()
            invariant
                chars@ == text,
                dict == dict_trie@,
                dict_trie.wf(),
                current_index <= text.len(),
                walking ==> forall|w: Seq<char>| #[trigger]
                    node.accepts(w) <==> dict_trie.root.accepts(text.take(current_index as int) + w),
                !walking ==> prefixes_upto(dict, text, current_index as nat) == prefixes_of(
                    dict,
                    text,
                ),
                result@.len() == prefixes_upto(dict, text, current_index as nat).len(),
                forall|i: int|
                    0 <= i < result@.len() ==> (#[trigger] result@[i])@ == prefixes_upto(
                        dict,
                        text,
                        current_index as nat,
                    )[i],
            decreases (if walking { 1int } else { 0int }) + text.len() - current_index,
        {
            let character: char = chars[current_index];
            match children_get(&node.children, character) {
                Some(child) => {
                    proof {
                        let longer = text.take(current_index + 1);
                        assert forall|w: Seq<char>| #[trigger]
                            child.accepts(w) <==> dict_trie.root.accepts(longer + w) by {
                            let cw = seq![character] + w;
                            assert(cw.drop_first() =~= w);
                            assert(node.accepts(cw) == child.accepts(w));
                            assert(text.take(current_index as int) + cw =~= longer + w);
                        }
                        assert(longer + Seq::<char>::empty() =~= longer);
                        assert(child.accepts(Seq::<char>::empty()) == child.end);
                        assert(child.end == dict.contains(longer));
                    }
                    if child.end {
                        let substring_of_prefix: &'p [char] = vstd::slice::slice_subrange(
                            chars,
                            0,
                            current_index + 1,
                        );
                        assert(substring_of_prefix@ =~= text.take(current_index + 1));
                        result.push(substring_of_prefix);
                    }
                    node = child;
                    current_index = current_index + 1;
                },
                None => {
                    proof {
                        lemma_no_longer_prefix(
                            dict_trie,
                            *node,
                            text,
                            current_index as int,
                            text.len() as int,
                        );
                    }
                    walking = false;
                },
            }
        }
        result
    }
}

/// Where the trie has no edge for the character at `at`, the dictionary
/// holds no prefix of `text` that reaches beyond `at`.
proof fn lemma_no_longer_prefix(trie: &TrieChar, node: TrieNode, text: Seq<char>, at: int, n: int)
    requires
        trie.wf(),
        0 <= at < text.len(),
        at <= n <= text.len(),
        forall|w: Seq<char>| #[trigger] node.accepts(w) <==> trie.root.accepts(text.take(at) + w),
        !node.children@.contains_key(text[at]),
    ensures
        prefixes_upto(trie@, text, n as nat) == prefixes_upto(trie@, text, at as nat),
    decreases n - at,
{
    if n > at {
        lemma_no_longer_prefix(trie, node, text, at, n - 1);
        let rest = text.subrange(at, n);
        assert(text.take(at) + rest =~= text.take(n));
        assert(!node.accepts(rest));
        assert(!trie.root.accepts(text.take(n)));
    }
}

/// The words that `prefixes_upto` lists are the words of `dict` that are
/// prefixes of `text` of at least one and at most `n` characters.
pub proof fn lemma_prefixes_upto_exact(dict: Set<Seq<char>>, text: Seq<char>, n: nat)
    requires
        n <= text.len(),
    ensures
        forall|w: Seq<char>| #[trigger]
            prefixes_upto(dict, text, n).contains(w) <==> (dict.contains(w) && 0 < w.len() <= n
                && w == text.take(w.len() as int)),
        forall|i: int|
            0 <= i < prefixes_upto(dict, text, n).len() ==> 0 < (#[trigger] prefixes_upto(
                dict,
                text,
                n,
            )[i]).len() <= n,
        forall|i: int, j: int|
            0 <= i < j < prefixes_upto(dict, text, n).len() ==> (#[trigger] prefixes_upto(
                dict,
                text,
                n,
            )[i]).len() < (#[trigger] prefixes_upto(dict, text, n)[j]).len(),
    decreases n,
{
    if n > 0 {
        let shorter = prefixes_upto(dict, text, (n - 1) as nat);
        let all = prefixes_upto(dict, text, n);
        let longest = text.take(n as int);
        lemma_prefixes_upto_exact(dict, text, (n - 1) as nat);
        assert forall|w: Seq<char>| #[trigger]
            all.contains(w) <==> (dict.contains(w) && 0 < w.len() <= n && w == text.take(
                w.len() as int,
            )) by {
            if dict.contains(longest) {
                assert(all == shorter.push(longest));
                assert(all[all.len() - 1] == longest);
                if all.contains(w) {
                    let k = choose|k: int| 0 <= k < all.len() && all[k] == w;
                    if k < shorter.len() {
                        assert(shorter[k] == w);
                        assert(shorter.contains(w));
                    }
                }
                if shorter.contains(w) {
                    let k = choose|k: int| 0 <= k < shorter.len() && shorter[k] == w;
                    assert(all[k] == w);
                }
            }
            if w.len() == n && w == text.take(w.len() as int) {
                assert(w == longest);
            }
        }
    }
}


/// Whatever the dictionary holds after words were added, it held before or
/// is one of the words.
proof fn lemma_with_words_origin(dict: Set<Seq<char>>, words: Seq<Seq<char>>, x: Seq<char>)
    requires
        with_words(dict, words).contains(x),
    ensures
        dict.contains(x) || exists|i: int| 0 <= i < words.len() && x == trimmed(#[trigger] words[i]),
    decreases words.len(),
{
    if words.len() > 0 {
        if x == trimmed(words.last()) {
            assert(x == trimmed(words[words.len() - 1]));
        } else {
            lemma_with_words_origin(dict, words.drop_last(), x);
            if !dict.contains(x) {
                let i = choose|i: int|
                    0 <= i < words.drop_last().len() && x == trimmed(#[trigger] words.drop_last()[i]);
                assert(x == trimmed(words[i]));
            }
        }
    }
}

/// Removing words adds none, and leaves none of the removed words.
proof fn lemma_without_words(dict: Set<Seq<char>>, words: Seq<Seq<char>>, x: Seq<char>)
    requires
        without_words(dict, words).contains(x),
    ensures
        dict.contains(x),
        forall|i: int| 0 <= i < words.len() ==> x != trimmed(#[trigger] words[i]),
    decreases words.len(),
{
    if words.len() > 0 {
        lemma_without_words(dict, words.drop_last(), x);
        assert forall|i: int| 0 <= i < words.len() implies x != trimmed(#[trigger] words[i]) by {
            if i < words.len() - 1 {
                assert(words.drop_last()[i] == words[i]);
            }
        }
    }
}

/// A dictionary that is built from a list of words holds each of them,
/// without the white space at its ends, unless nothing is left of it.
pub proof fn lemma_dictionary_holds_its_words(words: Seq<Seq<char>>, i: int)
    requires
        0 <= i < words.len(),
        trimmed(words[i]).len() > 0,
    ensures
        dictionary_of(words).contains(trimmed(words[i])),
    decreases words.len(),
{
    if i == words.len() - 1 {
    } else {
        assert(words.drop_last()[i] == words[i]);
        lemma_dictionary_holds_its_words(words.drop_last(), i);
    }
}

/// When every word of the list that a dictionary was built from has been
/// removed, the dictionary holds no word.
pub proof fn lemma_all_words_removed(words: Seq<Seq<char>>)
    ensures
        without_words(dictionary_of(words), words) == Set::<Seq<char>>::empty(),
{
    let left = without_words(dictionary_of(words), words);
    assert forall|x: Seq<char>| !left.contains(x) by {
        if left.contains(x) {
            lemma_without_words(dictionary_of(words), words, x);
            lemma_with_words_origin(Set::empty(), words, x);
        }
    }
    assert(left =~= Set::<Seq<char>>::empty());
}

} // verus!
