//! The search for the tokens of one text: from the start of the text the
//! open indices are visited, the least first, and the words of the
//! dictionary that start at an index open the indices at which they end.

use crate::collections::index_set::{index_set_contains, index_set_insert, index_set_new};
use crate::collections::min_heap::{
    heap_items, min_heap_len, min_heap_new, min_heap_peek, min_heap_pop, min_heap_push,
};
use crate::four_bytes_str::custom_string::CustomString;
use crate::tokenizer::fallback::{
    is_short_consonant_run, is_two_thai_consonants, non_dict_end, non_dict_match,
};
use crate::tokenizer::tcc::tcc_tokenizer::{lemma_text_end_is_boundary, tcc_boundaries, tcc_pos};
use crate::tokenizer::trie_char::{lemma_prefixes_upto_exact, prefixes_of, TrieChar};
use crate::tokenizer::ways::{
    bfs_paths_graph, chain, edges_of, graph_with, has_edge, hop_start, ints_of, lemma_chain,
    lemma_way_survives, lemma_way_then_edge, way,
};
use binary_heap_plus::{BinaryHeap, MinComparator};
use rustc_hash::FxHashSet;
use vstd::prelude::*;

verus! {

/// How many candidate tokens are collected before the search stops looking
/// at further words from the same start index.
pub const MAX_GRAPH_SIZE: usize = 50;

/// The state of the search for the tokens of one text.
pub struct Search {
    /// The indices that were reached and not yet visited.
    pub frontier: Set<int>,
    /// The graph of candidate tokens.
    pub graph: Seq<Seq<int>>,
    /// How many candidate tokens were collected since the last tokens were
    /// settled by a way through the graph.
    pub graph_size: nat,
    /// Where the last settled token ends.
    pub emitted_end: int,
    /// Where the settled tokens end, one after another.
    pub cuts: Seq<int>,
}

/// The search before any index of a text of `n` characters was visited.
pub open spec fn initial_search(n: nat) -> Search {
    Search {
        frontier: Set::<int>::empty().insert(0),
        graph: Seq::new(n + 1, |i: int| Seq::<int>::empty()),
        graph_size: 0,
        emitted_end: 0,
        cuts: Seq::empty(),
    }
}

/// The search after the candidate token from `from` to `to` was collected.
pub open spec fn with_edge(st: Search, from: int, to: int) -> Search {
    Search {
        frontier: st.frontier.insert(to),
        graph: st.graph.update(from, st.graph[from].push(to)),
        graph_size: st.graph_size + 1,
        ..st
    }
}

/// The search after the `words` from the `i`-th on were looked at, each a
/// word of the dictionary that starts at `from`: a word that ends at the end
/// of a cluster is collected as a candidate token, and once more than
/// `MAX_GRAPH_SIZE` candidates are collected the rest of the words is left
/// out.
pub open spec fn scan(st: Search, valid: Set<int>, from: int, words: Seq<Seq<char>>, i: nat) -> Search
    decreases words.len() - i,
{
    if i >= words.len() {
        st
    } else {
        let end = from + words[i as int].len();
        if valid.contains(end) {
            let next = with_edge(st, from, end);
            if next.graph_size > MAX_GRAPH_SIZE {
                next
            } else {
                scan(next, valid, from, words, i + 1)
            }
        } else {
            scan(st, valid, from, words, i + 1)
        }
    }
}

/// The search after its only open index was settled: the tokens along the
/// best way from the end of the last settled token to that index are
/// settled.
pub open spec fn commit(st: Search) -> Search {
    let goal = st.frontier.choose();
    Search {
        graph_size: 0,
        emitted_end: goal,
        cuts: st.cuts + chain(st.graph, goal, st.emitted_end),
        ..st
    }
}

/// The search after the token from `from` to `end` was settled without the
/// dictionary.
pub open spec fn fall_back(st: Search, from: int, end: int) -> Search {
    Search { emitted_end: end, cuts: st.cuts.push(end), ..with_edge(st, from, end) }
}

/// Whether the search for a token that the dictionary does not know may stop
/// at `at`: a cluster ends there, and a token starts there, which is a word
/// of the dictionary that ends at the end of a cluster and is more than one
/// or two Thai consonants, or a token that needs no dictionary.
pub open spec fn is_resume_point(text: Seq<char>, dict: Set<Seq<char>>, valid: Set<int>, at: int) -> bool {
    &&& valid.contains(at)
    &&& ({
        ||| exists|w: Seq<char>| #[trigger]
            prefixes_of(dict, text.skip(at)).contains(w) && valid.contains(at + w.len())
                && !is_short_consonant_run(w)
        ||| non_dict_end(text, at) is Some
    })
}

/// The first index from `at` on at which the search for a token that the
/// dictionary does not know may stop; the end of the text where there is
/// none.
pub open spec fn skip_end(text: Seq<char>, dict: Set<Seq<char>>, valid: Set<int>, at: int) -> int
    decreases text.len() - at,
{
    if at < 0 || at >= text.len() {
        text.len() as int
    } else if is_resume_point(text, dict, valid, at) {
        at
    } else {
        skip_end(text, dict, valid, at + 1)
    }
}

/// Where the token ends that starts at `from` and is settled without the
/// dictionary: where the token ends that needs no dictionary, if one starts
/// at `from`; else the first index after `from` at which the search may
/// stop.
pub open spec fn fallback_end(text: Seq<char>, dict: Set<Seq<char>>, valid: Set<int>, from: int) -> int {
    match non_dict_end(text, from) {
        Some(end) => end,
        None => skip_end(text, dict, valid, from + 1),
    }
}

/// The search after the open index `from` was visited: the words of the
/// dictionary that start there are looked at; then, where one index is open,
/// it is settled; where none is open, a token is settled without the
/// dictionary.
pub open spec fn visit(text: Seq<char>, dict: Set<Seq<char>>, valid: Set<int>, st: Search, from: int) -> Search {
    let popped = Search { frontier: st.frontier.remove(from), ..st };
    let scanned = scan(popped, valid, from, prefixes_of(dict, text.skip(from)), 0);
    if scanned.frontier.len() == 1 {
        commit(scanned)
    } else if scanned.frontier.len() == 0 {
        fall_back(scanned, from, fallback_end(text, dict, valid, from))
    } else {
        scanned
    }
}

/// The search after the open indices below `at` were visited, the least
/// first.
pub open spec fn search_before(text: Seq<char>, dict: Set<Seq<char>>, valid: Set<int>, at: nat) -> Search
    decreases at,
{
    if at == 0 {
        initial_search(text.len())
    } else {
        let st = search_before(text, dict, valid, (at - 1) as nat);
        if st.frontier.contains(at - 1) {
            visit(text, dict, valid, st, at - 1)
        } else {
            st
        }
    }
}

/// The search for the tokens of `text` when it has ended.
pub open spec fn one_cut_search(text: Seq<char>, dict: Set<Seq<char>>) -> Search {
    search_before(text, dict, tcc_boundaries(text), text.len())
}

/// Where the `i`-th of the tokens starts that end at `cuts`.
pub open spec fn token_start(cuts: Seq<int>, i: int) -> int {
    if i <= 0 {
        0
    } else {
        cuts[i - 1]
    }
}

/// A text with its dictionary and the ends of its clusters.
pub struct Task {
    pub text: Seq<char>,
    pub dict: Set<Seq<char>>,
    pub valid: Set<int>,
}

/// Whether the characters from `from` up to `to` are a token that the
/// search may settle: a word of the dictionary that ends at the end of a
/// cluster, or the token that is settled at `from` without the dictionary.
#[verifier::opaque]
pub open spec fn is_token(task: Task, from: int, to: int) -> bool {
    ||| task.dict.contains(task.text.subrange(from, to)) && task.valid.contains(to)
    ||| to == fallback_end(task.text, task.dict, task.valid, from)
}

/// Whether each of the tokens that end at `cuts` is one that the search may
/// settle.
#[verifier::opaque]
pub open spec fn all_tokens(task: Task, cuts: Seq<int>) -> bool {
    forall|i: int| 0 <= i < cuts.len() ==> is_token(task, token_start(cuts, i), #[trigger] cuts[i])
}

/// Whether each of the tokens of `text` that end at `cuts` ends at the end
/// of a cluster of `text`, unless it is a token that needs no dictionary.
#[verifier::opaque]
pub open spec fn ends_at_clusters(text: Seq<char>, cuts: Seq<int>) -> bool {
    forall|i: int|
        0 <= i < cuts.len() ==> tcc_boundaries(text).contains(#[trigger] cuts[i]) || non_dict_end(
            text,
            token_start(cuts, i),
        ) == Some(cuts[i])
}

/// A word of the dictionary that ends at the end of a cluster is a token
/// that the search may settle.
proof fn lemma_word_is_token(task: Task, from: int, to: int)
    requires
        task.dict.contains(task.text.subrange(from, to)),
        task.valid.contains(to),
    ensures
        is_token(task, from, to),
{
    reveal(is_token);
}

/// The token that is settled without the dictionary is a token that the
/// search may settle.
proof fn lemma_fallback_is_token(task: Task, from: int)
    ensures
        is_token(task, from, fallback_end(task.text, task.dict, task.valid, from)),
{
    reveal(is_token);
}

/// One more token that the search may settle.
proof fn lemma_all_tokens_push(task: Task, cuts: Seq<int>, end: int)
    requires
        all_tokens(task, cuts),
        is_token(task, token_start(cuts.push(end), cuts.len() as int), end),
    ensures
        all_tokens(task, cuts.push(end)),
{
    reveal(all_tokens);
    let longer = cuts.push(end);
    assert forall|i: int| 0 <= i < longer.len() implies is_token(
        task,
        token_start(longer, i),
        #[trigger] longer[i],
    ) by {
        if i < cuts.len() {
            assert(longer[i] == cuts[i]);
            if i > 0 {
                assert(longer[i - 1] == cuts[i - 1]);
            }
            assert(is_token(task, token_start(cuts, i), cuts[i]));
        }
    }
}

/// The tokens that the search may settle end at the ends of clusters,
/// unless they are tokens that need no dictionary.
pub proof fn lemma_tokens_end_at_clusters(text: Seq<char>, dict: Set<Seq<char>>, cuts: Seq<int>)
    requires
        cuts_cover(cuts, text.len() as int),
        all_tokens(Task { text: text, dict: dict, valid: tcc_boundaries(text) }, cuts),
    ensures
        ends_at_clusters(text, cuts),
{
    reveal(all_tokens);
    reveal(ends_at_clusters);
    let task = Task { text: text, dict: dict, valid: tcc_boundaries(text) };
    assert forall|i: int| 0 <= i < cuts.len() implies tcc_boundaries(text).contains(
        #[trigger] cuts[i],
    ) || non_dict_end(text, token_start(cuts, i)) == Some(cuts[i]) by {
        assert(is_token(task, token_start(cuts, i), cuts[i]));
        if i > 0 {
            assert(cuts[i - 1] < cuts[i]);
        }
        lemma_token_end(text, dict, token_start(cuts, i), cuts[i]);
    }
}

/// The search for a token that the dictionary does not know stops at the
/// end of a cluster or at the end of the text.
pub proof fn lemma_skip_end(text: Seq<char>, dict: Set<Seq<char>>, valid: Set<int>, at: int)
    requires
        0 <= at <= text.len(),
    ensures
        at <= skip_end(text, dict, valid, at) <= text.len(),
        valid.contains(skip_end(text, dict, valid, at)) || skip_end(text, dict, valid, at)
            == text.len(),
    decreases text.len() - at,
{
    if at < text.len() && !is_resume_point(text, dict, valid, at) {
        lemma_skip_end(text, dict, valid, at + 1);
    }
}

/// A token that the search may settle ends at the end of a cluster, unless
/// it is a token that needs no dictionary.
pub proof fn lemma_token_end(text: Seq<char>, dict: Set<Seq<char>>, from: int, to: int)
    requires
        0 <= from < text.len(),
        is_token(Task { text: text, dict: dict, valid: tcc_boundaries(text) }, from, to),
    ensures
        tcc_boundaries(text).contains(to) || non_dict_end(text, from) == Some(to),
{
    reveal(is_token);
    lemma_skip_end(text, dict, tcc_boundaries(text), from + 1);
    lemma_text_end_is_boundary(text, 0);
}

/// The search does not change where no index is open.
pub proof fn lemma_search_skips(text: Seq<char>, dict: Set<Seq<char>>, valid: Set<int>, from: nat, to: nat)
    requires
        from <= to,
        forall|x: int| from <= x < to ==> !search_before(text, dict, valid, from).frontier.contains(x),
    ensures
        search_before(text, dict, valid, to) == search_before(text, dict, valid, from),
    decreases to - from,
{
    if from < to {
        lemma_search_skips(text, dict, valid, from, (to - 1) as nat);
    }
}

/// What the search holds while it runs.
struct Cutter {
    graph: Vec<Vec<usize>>,
    graph_size: usize,
    position_list: BinaryHeap<usize, MinComparator>,
    existing_candidate: FxHashSet<usize>,
    end_position: usize,
    result: Vec<usize>,
}

impl Cutter {
    /// The indices that are open.
    spec fn frontier(&self) -> Set<int> {
        Set::new(
            |x: int| 0 <= x <= usize::MAX && heap_items(self.position_list).count(x as usize) > 0,
        )
    }

    /// The state of the search.
    spec fn search(&self) -> Search {
        Search {
            frontier: self.frontier(),
            graph: edges_of(self.graph@),
            graph_size: self.graph_size as nat,
            emitted_end: self.end_position as int,
            cuts: ints_of(self.result@),
        }
    }

    /// What holds of the search at any time, for a text of `n` characters
    /// of which no index below `lo` is open.
    spec fn inv(&self, n: int, lo: int) -> bool {
        &&& 0 <= lo
        &&& n + MAX_GRAPH_SIZE + 2 <= usize::MAX
        &&& self.graph@.len() == n + 1
        &&& self.frontier().finite()
        &&& heap_items(self.position_list).len() == self.frontier().len()
        &&& forall|x: usize| #[trigger] heap_items(self.position_list).count(x) <= 1
        &&& forall|x: usize| #[trigger]
            heap_items(self.position_list).count(x) > 0 ==> lo <= x <= n && self.end_position <= x
        &&& forall|x: usize|
            lo <= x ==> (#[trigger] self.existing_candidate@.contains(x) <==> heap_items(
                self.position_list,
            ).count(x) > 0)
        &&& forall|v: int, j: int|
            0 <= v < self.graph@.len() && 0 <= j < self.graph@[v]@.len() ==> v
                < #[trigger] self.graph@[v]@[j] <= n
        &&& self.end_position <= n
        &&& forall|i: int, j: int|
            0 <= i < j < self.result@.len() ==> self.result@[i] < self.result@[j]
        &&& forall|i: int|
            0 <= i < self.result@.len() ==> 0 < #[trigger] self.result@[i] <= self.end_position
        &&& self.result@.len() > 0 ==> self.result@[self.result@.len() - 1] == self.end_position
        &&& self.result@.len() == 0 ==> self.end_position == 0
    }

    /// Each candidate token and each settled token is one that the search
    /// may settle.
    spec fn classified(&self, task: Task) -> bool {
        &&& forall|v: int, j: int|
            0 <= v < self.graph@.len() && 0 <= j < self.graph@[v]@.len() ==> is_token(
                task,
                v,
                #[trigger] self.graph@[v]@[j] as int,
            )
        &&& all_tokens(task, ints_of(self.result@))
    }

    /// A way through the graph of candidate tokens leads from the end of the
    /// settled tokens to each open index.
    spec fn connected(&self) -> bool {
        forall|x: usize| #[trigger]
            heap_items(self.position_list).count(x) > 0 ==> way(
                edges_of(self.graph@),
                x as int,
                self.end_position as int,
            ) is Some
    }

    /// What holds of the search between two visits: an index is open, and
    /// where it is the only one, the settled tokens end there.
    spec fn settled(&self) -> bool {
        &&& self.frontier().len() >= 1
        &&& self.frontier().len() == 1 ==> self.frontier().contains(self.end_position as int)
    }

    /// The search before any index of a text of `n` characters was visited.
    fn new(n: usize) -> (r: Self)
        requires
            n + MAX_GRAPH_SIZE + 2 <= usize::MAX,
        ensures
            forall|task: Task| #[trigger] r.classified(task),
            r.connected(),
            r.inv(n as int, 0),
            r.settled(),
            r.search() == initial_search(n as nat),
    {
        let mut graph: Vec<Vec<usize>> = Vec::with_capacity(n + 1);
        let mut filled: usize = 0;
        while filled <= n
            invariant
                filled <= n + 1 <= usize::MAX,
                graph@.len() == filled,
                forall|v: int| 0 <= v < filled ==> (#[trigger] graph@[v])@.len() == 0,
            decreases n + 1 - filled,
        {
            graph.push(Vec::new());
            filled += 1;
        }
        let mut position_list = min_heap_new();
        let mut existing_candidate = index_set_new();
        min_heap_push(&mut position_list, 0);
        index_set_insert(&mut existing_candidate, 0);
        let r = Self {
            graph: graph,
            graph_size: 0,
            position_list: position_list,
            existing_candidate: existing_candidate,
            end_position: 0,
            result: Vec::new(),
        };
        proof {
            assert(r.frontier() =~= Set::<int>::empty().insert(0));
            assert(ints_of(r.result@) =~= Seq::<int>::empty());
            assert forall|task: Task| #[trigger] r.classified(task) by {
                reveal(all_tokens);
            }
            assert(edges_of(r.graph@) =~= Seq::new((n + 1) as nat, |i: int| Seq::<int>::empty())) by {
                assert forall|i: int| 0 <= i < n + 1 implies #[trigger] edges_of(r.graph@)[i]
                    =~= Seq::<int>::empty() by {}
            }
        }
        r
    }

    /// Collects the candidate token from `from` to `end`, and opens `end`
    /// unless it is open.
    fn add_candidate(
        &mut self,
        from: usize,
        end: usize,
        Ghost(n): Ghost<int>,
        Ghost(lo): Ghost<int>,
        Ghost(task): Ghost<Task>,
    )
        requires
            old(self).inv(n, lo),
            old(self).classified(task),
            old(self).connected(),
            way(edges_of(old(self).graph@), from as int, old(self).end_position as int) is Some,
            is_token(task, from as int, end as int),
            from < end <= n,
            lo <= end,
            old(self).end_position <= end,
            old(self).graph_size <= MAX_GRAPH_SIZE + n + 1,
        ensures
            final(self).inv(n, lo),
            final(self).classified(task),
            final(self).connected(),
            way(edges_of(final(self).graph@), from as int, final(self).end_position as int) is Some,
            final(self).search() == with_edge(old(self).search(), from as int, end as int),
            final(self).graph_size == old(self).graph_size + 1,
            final(self).result == old(self).result,
            final(self).end_position == old(self).end_position,
    {
        let ghost before = *self;
        self.graph[from].push(end);
        self.graph_size += 1;
        if !index_set_contains(&self.existing_candidate, end) {
            index_set_insert(&mut self.existing_candidate, end);
            min_heap_push(&mut self.position_list, end);
        }
        proof {
            assert(self.frontier() =~= before.frontier().insert(end as int));
            assert(edges_of(self.graph@) =~= edges_of(before.graph@).update(
                from as int,
                edges_of(before.graph@)[from as int].push(end as int),
            )) by {
                assert(ints_of(self.graph@[from as int]@) =~= ints_of(before.graph@[from as int]@).push(
                    end as int,
                ));
                assert forall|v: int| 0 <= v < self.graph@.len() && v != from implies ints_of(
                    self.graph@[v]@,
                ) == ints_of(before.graph@[v]@) by {}
            }
            assert forall|v: int, j: int|
                0 <= v < self.graph@.len() && 0 <= j < self.graph@[v]@.len() implies v
                < #[trigger] self.graph@[v]@[j] <= n && is_token(task, v, self.graph@[v]@[j] as int) by {
                if v == from {
                    if j < before.graph@[v]@.len() {
                        assert(self.graph@[v]@[j] == before.graph@[v]@[j]);
                    }
                } else {
                    assert(self.graph@[v] == before.graph@[v]);
                    assert(self.graph@[v]@[j] == before.graph@[v]@[j]);
                }
            }
            let narrow = edges_of(before.graph@);
            let wide = edges_of(self.graph@);
            assert(wide == graph_with(narrow, from as int, end as int));
            let start = self.end_position as int;
            lemma_way_survives(narrow, from as int, end as int, from as int, start, narrow[start].len());
            assert(wide[from as int][wide[from as int].len() - 1] == end);
            lemma_way_then_edge(wide, start, from as int, wide[from as int].len() - 1);
            assert forall|x: usize| #[trigger]
                heap_items(self.position_list).count(x) > 0 implies way(wide, x as int, start) is Some by {
                if x != end {
                    assert(heap_items(before.position_list).count(x) > 0);
                }
                if heap_items(before.position_list).count(x) > 0 {
                    lemma_way_survives(narrow, from as int, end as int, x as int, start, narrow[start].len());
                }
            }
        }
    }

    /// Looks at the words of the dictionary that start at `from`, the
    /// shortest first, and collects those that end at the end of a cluster.
    fn collect(
        &mut self,
        from: usize,
        prefixes: &Vec<&[char]>,
        valid_position: &FxHashSet<usize>,
        Ghost(n): Ghost<int>,
        Ghost(valid): Ghost<Set<int>>,
        Ghost(words): Ghost<Seq<Seq<char>>>,
        Ghost(task): Ghost<Task>,
    )
        requires
            old(self).inv(n, from + 1),
            old(self).classified(task),
            old(self).connected(),
            way(edges_of(old(self).graph@), from as int, old(self).end_position as int) is Some,
            valid == task.valid,
            forall|i: int|
                0 <= i < words.len() ==> task.dict.contains(
                    task.text.subrange(from as int, from + (#[trigger] words[i]).len()),
                ),
            from < n,
            old(self).end_position <= from,
            old(self).graph_size <= MAX_GRAPH_SIZE + from,
            prefixes@.len() == words.len(),
            forall|i: int| 0 <= i < words.len() ==> (#[trigger] prefixes@[i])@ == words[i],
            forall|i: int| 0 <= i < words.len() ==> 0 < (#[trigger] words[i]).len() <= n - from,
            forall|x: usize| #[trigger] valid_position@.contains(x) <==> valid.contains(x as int),
        ensures
            final(self).inv(n, from + 1),
            final(self).classified(task),
            final(self).connected(),
            final(self).search() == scan(old(self).search(), valid, from as int, words, 0),
            final(self).graph_size <= MAX_GRAPH_SIZE + from + 1,
            final(self).graph_size == old(self).graph_size || final(self).frontier().len() > 0,
            forall|x: int| #[trigger]
                old(self).frontier().contains(x) ==> final(self).frontier().contains(x),
            final(self).result == old(self).result,
            final(self).end_position == old(self).end_position,
    {
        let ghost start = self.search();
        let ghost first_size = self.graph_size;
        let mut index: usize = 0;
        let mut stop: bool = false;
        while !stop && index < prefixes.len()
            invariant
                self.inv(n, from + 1),
                self.classified(task),
                self.connected(),
                way(edges_of(self.graph@), from as int, self.end_position as int) is Some,
                valid == task.valid,
                forall|i: int|
                    0 <= i < words.len() ==> task.dict.contains(
                        task.text.subrange(from as int, from + (#[trigger] words[i]).len()),
                    ),
                from < n,
                self.end_position <= from,
                index <= words.len(),
                prefixes@.len() == words.len(),
                forall|i: int| 0 <= i < words.len() ==> (#[trigger] prefixes@[i])@ == words[i],
                forall|i: int| 0 <= i < words.len() ==> 0 < (#[trigger] words[i]).len() <= n - from,
                forall|x: usize| #[trigger] valid_position@.contains(x) <==> valid.contains(x as int),
                stop ==> scan(start, valid, from as int, words, 0) == self.search(),
                !stop ==> scan(start, valid, from as int, words, 0) == scan(
                    self.search(),
                    valid,
                    from as int,
                    words,
                    index as nat,
                ),
                self.graph_size <= MAX_GRAPH_SIZE + from + 1,
                !stop ==> self.graph_size == first_size || self.graph_size <= MAX_GRAPH_SIZE,
                first_size <= MAX_GRAPH_SIZE + from,
                self.graph_size == first_size || self.frontier().len() > 0,
                forall|x: int| #[trigger]
                    old(self).frontier().contains(x) ==> self.frontier().contains(x),
                self.result == old(self).result,
                self.end_position == old(self).end_position,
            decreases (if stop { 0int } else { 1int }) + words.len() - index,
        {
            let word: &[char] = prefixes[index];
            assert(word@ == words[index as int]);
            let end_position_candidate: usize = from + word.len();
            if index_set_contains(valid_position, end_position_candidate) {
                proof {
                    lemma_word_is_token(task, from as int, end_position_candidate as int);
                }
                self.add_candidate(
                    from,
                    end_position_candidate,
                    Ghost(n),
                    Ghost(from + 1),
                    Ghost(task),
                );
                proof {
                    assert(self.frontier().contains(end_position_candidate as int));
                    assert(self.frontier().len() > 0) by {
                        if self.frontier().len() == 0 {
                            assert(self.frontier() =~= Set::<int>::empty());
                        }
                    }
                }
                if self.graph_size > MAX_GRAPH_SIZE {
                    stop = true;
                }
            }
            index += 1;
        }
    }

    /// Settles the tokens along the best way to the only open index.
    fn settle(&mut self, Ghost(n): Ghost<int>, Ghost(lo): Ghost<int>, Ghost(task): Ghost<Task>)
        requires
            old(self).inv(n, lo),
            old(self).classified(task),
            old(self).connected(),
            old(self).frontier().len() == 1,
            old(self).end_position < lo,
        ensures
            final(self).inv(n, lo),
            final(self).settled(),
            final(self).connected(),
            final(self).classified(task),
            final(self).search() == commit(old(self).search()),
            final(self).graph_size == 0,
    {
        let ghost before = *self;
        let ghost st = self.search();
        let goal: usize = match min_heap_peek(&self.position_list) {
            Some(least) => least,
            None => vstd::pervasive::unreached(),
        };
        proof {
            assert(self.frontier().contains(goal as int));
            let chosen = self.frontier().choose();
            assert(self.frontier().contains(chosen));
            if chosen != goal {
                assert(self.frontier().remove(goal as int).contains(chosen));
                assert(self.frontier().remove(goal as int).len() == 0);
                assert(self.frontier().remove(goal as int) =~= Set::<int>::empty());
            }
            assert forall|x: int| self.frontier().contains(x) implies x == goal by {
                if x != goal {
                    assert(self.frontier().remove(goal as int).contains(x));
                    assert(self.frontier().remove(goal as int).len() == 0);
                    assert(self.frontier().remove(goal as int) =~= Set::<int>::empty());
                }
            }
        }
        let path: Vec<usize> = match bfs_paths_graph(&self.graph, self.end_position, goal) {
            Ok(path) => path,
            Err(_) => vstd::pervasive::unreached(),
        };
        let ghost hops = chain(st.graph, goal as int, st.emitted_end);
        proof {
            lemma_chain(st.graph, goal as int, st.emitted_end);
            assert(ints_of(path@).len() == hops.len() + 1);
            assert forall|i: int| 1 <= i < path@.len() implies path@[i] as int == hops[i - 1] by {
                assert(ints_of(path@)[i] == (seq![st.emitted_end] + hops)[i]);
            }
        }
        self.graph_size = 0;
        let mut index: usize = 1;
        proof {
            assert(hops.take(0) =~= Seq::<int>::empty());
            assert(ints_of(self.result@) + hops.take(0) =~= ints_of(self.result@));
        }
        while index < path.len()
            invariant
                1 <= index <= path@.len(),
                goal <= n,
                path@.len() == hops.len() + 1,
                forall|i: int| 1 <= i < path@.len() ==> path@[i] as int == #[trigger] hops[i - 1],
                forall|i: int| 0 <= i < hops.len() ==> before.end_position < #[trigger] hops[i] <= goal,
                forall|i: int, j: int| 0 <= i < j < hops.len() ==> hops[i] < hops[j],
                forall|i: int|
                    0 <= i < hops.len() ==> has_edge(
                        st.graph,
                        hop_start(hops, st.emitted_end, i),
                        #[trigger] hops[i],
                    ),
                st.graph == edges_of(before.graph@),
                st.emitted_end == before.end_position,
                st.cuts == ints_of(before.result@),
                before.inv(n, lo),
                hops.len() > 0 ==> hops.last() == goal,
                self.inv(n, lo),
                self.classified(task),
                self.position_list == before.position_list,
                self.frontier() == before.frontier(),
                forall|x: int| self.frontier().contains(x) ==> x == goal,
                self.graph == before.graph,
                self.graph_size == 0,
                ints_of(self.result@) == st.cuts + hops.take(index - 1),
                index == 1 ==> self.end_position == before.end_position,
                index > 1 ==> self.end_position == hops[index - 2],
            decreases path@.len() - index,
        {
            let position: usize = path[index];
            let ghost cuts_before = self.result@;
            self.result.push(position);
            self.end_position = position;
            proof {
                assert(position as int == hops[index - 1]);
                assert(ints_of(self.result@) =~= ints_of(cuts_before).push(position as int));
                assert(hops.take(index as int) =~= hops.take(index - 1).push(hops[index - 1]));
                assert(ints_of(self.result@) =~= st.cuts + hops.take(index as int));
                assert forall|i: int, j: int|
                    0 <= i < j < self.result@.len() implies self.result@[i] < self.result@[j] by {
                    if j == cuts_before.len() {
                        assert(self.result@[i] == cuts_before[i]);
                    } else {
                        assert(self.result@[i] == cuts_before[i]);
                        assert(self.result@[j] == cuts_before[j]);
                    }
                }
                assert forall|i: int| 0 <= i < self.result@.len() implies 0
                    < #[trigger] self.result@[i] <= self.end_position by {
                    if i < cuts_before.len() {
                        assert(self.result@[i] == cuts_before[i]);
                    }
                }
                assert(self.frontier() =~= before.frontier());
                assert forall|x: usize| #[trigger]
                    heap_items(self.position_list).count(x) > 0 implies lo <= x <= n
                    && self.end_position <= x by {
                    assert(self.frontier().contains(x as int));
                }
                assert(is_token(
                    task,
                    token_start(ints_of(cuts_before).push(position as int), cuts_before.len() as int),
                    position as int,
                )) by {
                    let from = hop_start(hops, st.emitted_end, index - 1);
                    assert(has_edge(st.graph, from, hops[index - 1]));
                    let j = choose|j: int|
                        0 <= j < st.graph[from].len() && #[trigger] st.graph[from][j]
                            == hops[index - 1];
                    assert(before.graph@[from]@[j] == hops[index - 1]);
                    if cuts_before.len() > 0 {
                        assert(ints_of(cuts_before)[cuts_before.len() - 1]
                            == cuts_before[cuts_before.len() - 1]);
                    }
                }
                lemma_all_tokens_push(task, ints_of(cuts_before), position as int);
            }
            index += 1;
        }
        proof {
            assert(hops.take(hops.len() as int) =~= hops);
            assert(hops.len() > 0);
            assert(self.end_position == goal);
            assert forall|x: usize| #[trigger]
                heap_items(self.position_list).count(x) > 0 implies way(
                edges_of(self.graph@),
                x as int,
                self.end_position as int,
            ) is Some by {
                assert(self.frontier().contains(x as int));
            }
        }
    }

    /// Settles the token from `from` to `end` without the dictionary.
    fn settle_without_dictionary(
        &mut self,
        from: usize,
        end: usize,
        Ghost(n): Ghost<int>,
        Ghost(task): Ghost<Task>,
    )
        requires
            old(self).inv(n, from + 1),
            old(self).classified(task),
            old(self).connected(),
            end == fallback_end(task.text, task.dict, task.valid, from as int),
            old(self).frontier().len() == 0,
            old(self).end_position == from,
            from < end <= n,
            old(self).graph_size <= MAX_GRAPH_SIZE + from,
        ensures
            final(self).inv(n, from + 1),
            final(self).classified(task),
            final(self).connected(),
            final(self).settled(),
            final(self).search() == fall_back(old(self).search(), from as int, end as int),
            final(self).graph_size == old(self).graph_size + 1,
    {
        let ghost before = *self;
        proof {
            assert(self.frontier() =~= Set::<int>::empty());
        }
        proof {
            lemma_fallback_is_token(task, from as int);
        }
        self.add_candidate(from, end, Ghost(n), Ghost(from + 1), Ghost(task));
        let ghost cuts_before = self.result@;
        self.result.push(end);
        self.end_position = end;
        proof {
            assert(self.frontier() =~= Set::<int>::empty().insert(end as int));
            assert(ints_of(self.result@) =~= ints_of(cuts_before).push(end as int));
            assert forall|i: int, j: int|
                0 <= i < j < self.result@.len() implies self.result@[i] < self.result@[j] by {
                assert(self.result@[i] == cuts_before[i]);
                if j < cuts_before.len() {
                    assert(self.result@[j] == cuts_before[j]);
                }
            }
            assert forall|i: int| 0 <= i < self.result@.len() implies 0 < #[trigger] self.result@[i]
                <= self.end_position by {
                if i < cuts_before.len() {
                    assert(self.result@[i] == cuts_before[i]);
                }
            }
            assert forall|x: usize| #[trigger]
                heap_items(self.position_list).count(x) > 0 implies from + 1 <= x <= n
                && self.end_position <= x by {
                assert(self.frontier().contains(x as int));
            }
            assert forall|x: usize| #[trigger]
                heap_items(self.position_list).count(x) > 0 implies way(
                edges_of(self.graph@),
                x as int,
                self.end_position as int,
            ) is Some by {
                assert(self.frontier().contains(x as int));
            }
            lemma_fallback_is_token(task, from as int);
            if cuts_before.len() > 0 {
                assert(ints_of(cuts_before)[cuts_before.len() - 1] == cuts_before[cuts_before.len() - 1]);
            }
            lemma_all_tokens_push(task, ints_of(cuts_before), end as int);
        }
    }
}


/// Whether a word of the dictionary starts at `at` that ends at the end of
/// a cluster and is more than one or two Thai consonants.
fn starts_resume_word(
    input: &CustomString,
    custom_dict: &TrieChar,
    valid_position: &FxHashSet<usize>,
    at: usize,
    Ghost(valid): Ghost<Set<int>>,
) -> (r: bool)
    requires
        custom_dict.wf(),
        at <= input@.len(),
        forall|x: usize| #[trigger] valid_position@.contains(x) <==> valid.contains(x as int),
    ensures
        r == exists|w: Seq<char>| #[trigger]
            prefixes_of(custom_dict@, input@.skip(at as int)).contains(w) && valid.contains(
                at + w.len(),
            ) && !is_short_consonant_run(w),
{
    let text_length: usize = input.chars_len();
    let prefix = input.substring(at, text_length);
    let list_of_prefixes = TrieChar::prefix_ref(&prefix, custom_dict);
    let ghost words = prefixes_of(custom_dict@, input@.skip(at as int));
    proof {
        assert(prefix@ =~= input@.skip(at as int));
        lemma_prefixes_upto_exact(custom_dict@, prefix@, prefix@.len());
    }
    let mut index: usize = 0;
    while index < list_of_prefixes.len()
        invariant
            index <= words.len(),
            at <= input@.len() <= usize::MAX,
            list_of_prefixes@.len() == words.len(),
            words == prefixes_of(custom_dict@, input@.skip(at as int)),
            forall|i: int| 0 <= i < words.len() ==> (#[trigger] list_of_prefixes@[i])@ == words[i],
            forall|i: int| 0 <= i < words.len() ==> 0 < (#[trigger] words[i]).len() <= input@.len() - at,
            forall|x: usize| #[trigger] valid_position@.contains(x) <==> valid.contains(x as int),
            forall|i: int|
                0 <= i < index ==> !(valid.contains(at + (#[trigger] words[i]).len())
                    && !is_short_consonant_run(words[i])),
        decreases words.len() - index,
    {
        let word: &[char] = list_of_prefixes[index];
        assert(word@ == words[index as int]);
        let new_position: usize = at + word.len();
        if index_set_contains(valid_position, new_position) && !is_two_thai_consonants(word) {
            assert(words.contains(words[index as int]));
            return true;
        }
        index += 1;
    }
    proof {
        assert forall|w: Seq<char>|
            !(#[trigger] words.contains(w) && valid.contains(at + w.len()) && !is_short_consonant_run(
                w,
            )) by {
            if words.contains(w) {
                let i = choose|i: int| 0 <= i < words.len() && words[i] == w;
                assert(words[i] == w);
            }
        }
    }
    false
}

/// Where the token ends that starts at `from` and is settled without the
/// dictionary.
fn fallback_target(
    input: &CustomString,
    chars: &[char],
    custom_dict: &TrieChar,
    valid_position: &FxHashSet<usize>,
    from: usize,
    Ghost(valid): Ghost<Set<int>>,
) -> (end: usize)
    requires
        custom_dict.wf(),
        chars@ == input@,
        from < input@.len(),
        forall|x: usize| #[trigger] valid_position@.contains(x) <==> valid.contains(x as int),
    ensures
        end == fallback_end(input@, custom_dict@, valid, from as int),
        from < end <= input@.len(),
{
    match non_dict_match(chars, from) {
        Some(end) => end,
        None => {
            let text_length: usize = chars.len();
            let mut position: usize = from + 1;
            while position < text_length
                invariant
                    custom_dict.wf(),
                    chars@ == input@,
                    text_length == input@.len(),
                    from < position <= text_length,
                    non_dict_end(input@, from as int) is None,
                    forall|x: usize| #[trigger] valid_position@.contains(x) <==> valid.contains(x as int),
                    skip_end(input@, custom_dict@, valid, from + 1) == skip_end(
                        input@,
                        custom_dict@,
                        valid,
                        position as int,
                    ),
                decreases text_length - position,
            {
                if index_set_contains(valid_position, position) {
                    if starts_resume_word(input, custom_dict, valid_position, position, Ghost(valid)) {
                        assert(is_resume_point(input@, custom_dict@, valid, position as int));
                        assert(skip_end(input@, custom_dict@, valid, position as int) == position);
                        assert(non_dict_end(input@, from as int) is None);
                        return position;
                    }
                    if non_dict_match(chars, position).is_some() {
                        assert(is_resume_point(input@, custom_dict@, valid, position as int));
                        assert(skip_end(input@, custom_dict@, valid, position as int) == position);
                        assert(non_dict_end(input@, from as int) is None);
                        return position;
                    }
                }
                position += 1;
            }
            text_length
        },
    }
}

/// Whether the indices of `cuts` cut a text of `n` characters into tokens
/// that are not empty: they go up from above zero to `n`.
pub open spec fn cuts_cover(cuts: Seq<int>, n: int) -> bool {
    &&& forall|i: int| 0 <= i < cuts.len() ==> 0 < #[trigger] cuts[i] <= n
    &&& forall|i: int, j: int| 0 <= i < j < cuts.len() ==> cuts[i] < cuts[j]
    &&& n > 0 ==> cuts.len() > 0 && cuts[cuts.len() - 1] == n
    &&& n == 0 ==> cuts.len() == 0
}

/// Where the tokens of `input` end, one after another, counted in
/// characters from the start of `input`.
///
/// A way through the graph of candidate tokens leads to each index that the
/// search settles.
pub fn one_cut(input: &CustomString, custom_dict: &TrieChar) -> (cuts: Vec<usize>)
    requires
        custom_dict.wf(),
    ensures
        ints_of(cuts@) == one_cut_search(input@, custom_dict@).cuts,
        cuts_cover(ints_of(cuts@), input@.len() as int),
        all_tokens(
            Task { text: input@, dict: custom_dict@, valid: tcc_boundaries(input@) },
            ints_of(cuts@),
        ),
        ends_at_clusters(input@, ints_of(cuts@)),
        forall|at: nat|
            at <= input@.len() ==> (#[trigger] search_before(
                input@,
                custom_dict@,
                tcc_boundaries(input@),
                at,
            )).graph_size <= MAX_GRAPH_SIZE + at,
{
    let text_length: usize = input.chars_len();
    let full_bytes: usize = input.full_string_bytes_len();
    let chars: &[char] = input.get_chars_content();
    let valid_position = tcc_pos(input);
    let ghost text = input@;
    let ghost dict = custom_dict@;
    let ghost valid = tcc_boundaries(text);
    let ghost n = text_length as int;
    let ghost task = Task { text: text, dict: dict, valid: valid };
    let mut cutter = Cutter::new(text_length);
    let ghost mut lo: nat = 0;
    let mut next: Option<usize> = min_heap_peek(&cutter.position_list);
    while next.is_some() && next.unwrap() < text_length
        invariant
            custom_dict.wf(),
            text == input@,
            dict == custom_dict@,
            valid == tcc_boundaries(text),
            chars@ == text,
            n == text.len(),
            n == text_length,
            forall|x: usize| #[trigger] valid_position@.contains(x) <==> valid.contains(x as int),
            lo <= n,
            task == (Task { text: text, dict: dict, valid: valid }),
            cutter.inv(n, lo as int),
            cutter.classified(task),
            cutter.connected(),
            cutter.settled(),
            cutter.graph_size <= MAX_GRAPH_SIZE + lo,
            cutter.search() == search_before(text, dict, valid, lo),
            forall|at: nat|
                at <= lo ==> (#[trigger] search_before(text, dict, valid, at)).graph_size
                    <= MAX_GRAPH_SIZE + at,
            next is None ==> heap_items(cutter.position_list).len() == 0,
            next is Some ==> heap_items(cutter.position_list).count(next->0) > 0,
            next is Some ==> forall|other: usize|
                heap_items(cutter.position_list).count(other) > 0 ==> next->0 <= other,
        decreases n - lo,
    {
        let begin_position: usize = next.unwrap();
        let ghost before = cutter;
        let ghost st = cutter.search();
        proof {
            assert(st.frontier.contains(begin_position as int));
            assert forall|x: int| lo <= x < begin_position implies !st.frontier.contains(x) by {}
            lemma_search_skips(text, dict, valid, lo, begin_position as nat);
            assert forall|at: nat| at <= begin_position implies (#[trigger] search_before(
                text,
                dict,
                valid,
                at,
            )).graph_size <= MAX_GRAPH_SIZE + at by {
                if at > lo {
                    assert forall|x: int| lo <= x < at implies !st.frontier.contains(x) by {}
                    lemma_search_skips(text, dict, valid, lo, at);
                }
            }
            assert(search_before(text, dict, valid, (begin_position + 1) as nat) == visit(
                text,
                dict,
                valid,
                st,
                begin_position as int,
            ));
        }
        let popped = min_heap_pop(&mut cutter.position_list);
        proof {
            assert(popped == Some(begin_position));
            assert(cutter.frontier() =~= st.frontier.remove(begin_position as int));
            assert(st.frontier.len() == 1 ==> begin_position == cutter.end_position) by {
                if st.frontier.len() == 1 {
                    if begin_position != cutter.end_position {
                        assert(st.frontier.remove(begin_position as int).contains(
                            cutter.end_position as int,
                        ));
                        assert(st.frontier.remove(begin_position as int).len() == 0);
                        assert(st.frontier.remove(begin_position as int) =~= Set::<int>::empty());
                    }
                }
            }
            assert(cutter.inv(n, begin_position + 1));
        }
        let sub_text_prefix = input.substring(begin_position, text_length);
        let prefixes = TrieChar::prefix_ref(&sub_text_prefix, custom_dict);
        let ghost words = prefixes_of(dict, text.skip(begin_position as int));
        proof {
            assert(sub_text_prefix@ =~= text.skip(begin_position as int));
            lemma_prefixes_upto_exact(dict, sub_text_prefix@, sub_text_prefix@.len());
            assert forall|i: int| 0 <= i < words.len() implies dict.contains(
                text.subrange(begin_position as int, begin_position + (#[trigger] words[i]).len()),
            ) by {
                let w = words[i];
                assert(words.contains(w));
                assert(w == text.skip(begin_position as int).take(w.len() as int));
                assert(text.skip(begin_position as int).take(w.len() as int) =~= text.subrange(
                    begin_position as int,
                    begin_position + w.len(),
                ));
            }
        }
        let ghost popped_search = cutter.search();
        cutter.collect(
            begin_position,
            &prefixes,
            &valid_position,
            Ghost(n),
            Ghost(valid),
            Ghost(words),
            Ghost(task),
        );
        let ghost scanned = cutter.search();
        let position_list_length: usize = min_heap_len(&cutter.position_list);
        if position_list_length == 1 {
            cutter.settle(Ghost(n), Ghost(begin_position + 1), Ghost(task));
        } else if position_list_length == 0 {
            proof {
                assert(cutter.frontier() =~= Set::<int>::empty());
                assert(popped_search.frontier =~= Set::<int>::empty());
                assert(st.frontier =~= Set::<int>::empty().insert(begin_position as int));
                assert(st.frontier.len() == 1);
            }
            let end: usize = fallback_target(
                input,
                chars,
                custom_dict,
                &valid_position,
                begin_position,
                Ghost(valid),
            );
            cutter.settle_without_dictionary(begin_position, end, Ghost(n), Ghost(task));
        } else {
            proof {
                assert(cutter.settled());
            }
        }
        proof {
            lo = (begin_position + 1) as nat;
        }
        next = min_heap_peek(&cutter.position_list);
    }
    proof {
        assert(cutter.frontier().len() >= 1);
        assert(next is Some) by {
            if next is None {
                assert(cutter.frontier().len() == 0);
            }
        }
        let top = next->0;
        assert(cutter.frontier() =~= Set::<int>::empty().insert(n)) by {
            assert(cutter.frontier().contains(top as int));
            assert forall|x: int| cutter.frontier().contains(x) implies x == n by {
                assert(heap_items(cutter.position_list).count(x as usize) > 0);
            }
        }
        assert(cutter.frontier().len() == 1);
        assert forall|x: int| lo <= x < n implies !cutter.search().frontier.contains(x) by {}
        lemma_search_skips(text, dict, valid, lo, n as nat);
        assert forall|at: nat| at <= n implies (#[trigger] search_before(
            text,
            dict,
            valid,
            at,
        )).graph_size <= MAX_GRAPH_SIZE + at by {
            if at > lo {
                assert forall|x: int| lo <= x < at implies !cutter.search().frontier.contains(x) by {}
                lemma_search_skips(text, dict, valid, lo, at);
            }
        }
        let cuts = ints_of(cutter.result@);
        assert(cuts_cover(cuts, n)) by {
            assert forall|i: int| 0 <= i < cuts.len() implies 0 < #[trigger] cuts[i] <= n by {
                assert(cuts[i] == cutter.result@[i]);
            }
            assert forall|i: int, j: int| 0 <= i < j < cuts.len() implies cuts[i] < cuts[j] by {
                assert(cuts[i] == cutter.result@[i]);
                assert(cuts[j] == cutter.result@[j]);
            }
        }
    }
    proof {
        lemma_tokens_end_at_clusters(text, dict, ints_of(cutter.result@));
    }
    cutter.result
}

} // verus!
