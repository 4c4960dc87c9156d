//! Thai character clusters: where each cluster of a text ends.
//!
//! The clusters follow one another from the start of the text. A cluster is
//! the longest run of characters that has one of the cluster shapes; where
//! no shape matches, it is one character.

use crate::collections::index_set::{index_set_insert, index_set_new};
use crate::four_bytes_str::custom_string::CustomString;
use crate::tokenizer::tcc::tcc_rules::{
    cluster_shape_table, cluster_shapes, items_match, karan_items, karan_row,
    lookahead_shape_table, lookahead_shapes, shape_matches, shapes_of, Item, Shape, ShapeRow,
};
use rustc_hash::FxHashSet;
use vstd::prelude::*;

verus! {

/// Whether the items of `items` from `idx` on, and a karan after them where
/// `karan` is set, match the characters of `text` from `from` up to `to`.
pub open spec fn tail_matches(
    items: Seq<Item>,
    idx: int,
    karan: bool,
    text: Seq<char>,
    limit: int,
    from: int,
    to: int,
) -> bool {
    shape_matches(Shape { items: items.skip(idx), karan: karan }, text, limit, from, to)
}

/// Whether one of the `shapes` matches the characters of `text` from `from`
/// up to `to`.
pub open spec fn some_shape_matches(
    shapes: Seq<Shape>,
    text: Seq<char>,
    limit: int,
    from: int,
    to: int,
) -> bool {
    exists|i: int| 0 <= i < shapes.len() && shape_matches(#[trigger] shapes[i], text, limit, from, to)
}

/// Whether `to` is the end of the longest match of one of the `shapes` from
/// `from`.
pub open spec fn is_longest_end(
    shapes: Seq<Shape>,
    text: Seq<char>,
    limit: int,
    from: int,
    to: int,
) -> bool {
    &&& some_shape_matches(shapes, text, limit, from, to)
    &&& forall|t: int| #[trigger] some_shape_matches(shapes, text, limit, from, t) ==> t <= to
}

/// Whether the longest match from `from`, which ends at `to`, starts with a
/// match of one of the shapes whose last character belongs to the next
/// cluster.
pub open spec fn cut_short(text: Seq<char>, from: int, to: int) -> bool {
    exists|e: int| some_shape_matches(lookahead_shapes(), text, to, from, e)
}

/// Where the longest match of a cluster shape from `from` ends, if a shape
/// matches.
pub open spec fn longest_end(text: Seq<char>, from: int) -> Option<int> {
    let n = text.len() as int;
    if exists|to: int| is_longest_end(cluster_shapes(), text, n, from, to) {
        Some(choose|to: int| is_longest_end(cluster_shapes(), text, n, from, to))
    } else {
        None
    }
}

/// Whether the cluster at `from` gives its last character to the next one.
pub open spec fn ends_early(text: Seq<char>, from: int) -> bool {
    longest_end(text, from) is Some && cut_short(text, from, longest_end(text, from)->0)
}

/// Where the cluster that starts at `from` ends: where the longest match of
/// a cluster shape ends, or one character before where the cluster gives
/// its last character to the next one; after one character where no shape
/// matches.
pub open spec fn cluster_end(text: Seq<char>, from: int) -> int {
    match longest_end(text, from) {
        Some(to) => {
            let end = if cut_short(text, from, to) {
                to - 1
            } else {
                to
            };
            if end > from {
                end
            } else {
                from + 1
            }
        },
        None => from + 1,
    }
}

/// The ends of the clusters of `text` from `from` on, where a cluster
/// starts at `from`.
pub open spec fn cluster_ends_from(text: Seq<char>, from: int) -> Set<int>
    decreases text.len() - from,
{
    if 0 <= from < text.len() {
        let end = cluster_end(text, from);
        if from < end <= text.len() {
            cluster_ends_from(text, end).insert(end)
        } else {
            Set::empty()
        }
    } else {
        Set::empty()
    }
}

/// The ends of the clusters of `text`.
pub open spec fn tcc_boundaries(text: Seq<char>) -> Set<int> {
    cluster_ends_from(text, 0)
}

/// The clusters of `text` from `from` on, where a cluster starts at `from`.
pub open spec fn clusters_from(text: Seq<char>, from: int) -> Seq<Seq<char>>
    decreases text.len() - from,
{
    if 0 <= from < text.len() {
        let end = cluster_end(text, from);
        if from < end <= text.len() {
            seq![text.subrange(from, end)] + clusters_from(text, end)
        } else {
            Seq::empty()
        }
    } else {
        Seq::empty()
    }
}

/// A match does not go back, does not pass the limit, and takes no more
/// characters than there are items.
pub proof fn lemma_match_bounds(items: Seq<Item>, text: Seq<char>, limit: int, from: int, to: int)
    requires
        items_match(items, text, limit, from, to),
        from <= limit,
    ensures
        from <= to <= limit,
        to - from <= items.len(),
    decreases items.len(),
{
    if items.len() > 0 {
        if items[0].optional && items_match(items.drop_first(), text, limit, from, to) {
            lemma_match_bounds(items.drop_first(), text, limit, from, to);
        } else {
            lemma_match_bounds(items.drop_first(), text, limit, from + 1, to);
        }
    }
}

/// A match of a shape does not go back and does not pass the limit.
pub proof fn lemma_shape_match_bounds(shape: Shape, text: Seq<char>, limit: int, from: int, to: int)
    requires
        shape_matches(shape, text, limit, from, to),
        from <= limit,
    ensures
        from <= to <= limit,
{
    if items_match(shape.items, text, limit, from, to) {
        lemma_match_bounds(shape.items, text, limit, from, to);
    } else {
        lemma_match_bounds(shape.items + karan_items(), text, limit, from, to);
    }
}

/// How a match of the items from `idx` on comes from a match of the items
/// from `idx + 1` on.
proof fn lemma_tail_step(
    items: Seq<Item>,
    idx: int,
    karan: bool,
    text: Seq<char>,
    limit: int,
    from: int,
    to: int,
)
    requires
        0 <= idx < items.len(),
    ensures
        tail_matches(items, idx, karan, text, limit, from, to) <==> ({
            ||| items[idx].optional && tail_matches(items, idx + 1, karan, text, limit, from, to)
            ||| 0 <= from < limit <= text.len() && items[idx].class.contains(text[from])
                && tail_matches(items, idx + 1, karan, text, limit, from + 1, to)
        }),
{
    let here = items.skip(idx);
    let next = items.skip(idx + 1);
    assert(here.drop_first() =~= next);
    assert(here[0] == items[idx]);
    assert((here + karan_items()).drop_first() =~= next + karan_items());
    assert((here + karan_items())[0] == items[idx]);
}

/// The end of the longest match of the items of `items` from `idx` on, and
/// of a karan after them where `karan` is set, from `from`.
fn longest_match(
    items: &Vec<Item>,
    idx: usize,
    karan: bool,
    karan_row: &Vec<Item>,
    text: &[char],
    limit: usize,
    from: usize,
) -> (r: Option<usize>)
    requires
        idx <= items@.len(),
        from <= limit <= text@.len(),
        karan_row@ == karan_items(),
    ensures
        r is Some ==> from <= r->0 <= limit && tail_matches(
            items@,
            idx as int,
            karan,
            text@,
            limit as int,
            from as int,
            r->0 as int,
        ),
        r is Some ==> forall|t: int| #[trigger]
            tail_matches(items@, idx as int, karan, text@, limit as int, from as int, t) ==> t
                <= r->0,
        r is None ==> forall|t: int|
            !#[trigger] tail_matches(items@, idx as int, karan, text@, limit as int, from as int, t),
    decreases
            (if karan {
                1int
            } else {
                0int
            }),
            items@.len() - idx,
{
    if idx == items.len() {
        proof {
            assert(items@.skip(idx as int) =~= Seq::<Item>::empty());
            assert(items@.skip(idx as int) + karan_items() =~= karan_items());
            assert(karan_items().skip(0) =~= karan_items());
        }
        if karan {
            match longest_match(karan_row, 0, false, karan_row, text, limit, from) {
                Some(to) => {
                    proof {
                        assert forall|t: int| #[trigger]
                            tail_matches(
                                items@,
                                idx as int,
                                karan,
                                text@,
                                limit as int,
                                from as int,
                                t,
                            ) implies t <= to by {
                            if t != from {
                                assert(tail_matches(
                                    karan_row@,
                                    0,
                                    false,
                                    text@,
                                    limit as int,
                                    from as int,
                                    t,
                                ));
                            }
                        }
                    }
                    Some(to)
                },
                None => {
                    proof {
                        assert forall|t: int| #[trigger]
                            tail_matches(
                                items@,
                                idx as int,
                                karan,
                                text@,
                                limit as int,
                                from as int,
                                t,
                            ) implies t <= from by {
                            if t != from {
                                assert(tail_matches(
                                    karan_row@,
                                    0,
                                    false,
                                    text@,
                                    limit as int,
                                    from as int,
                                    t,
                                ));
                            }
                        }
                    }
                    Some(from)
                },
            }
        } else {
            Some(from)
        }
    } else {
        let item: Item = items[idx];
        let taken: Option<usize> = if from < limit && item.class.holds(text[from]) {
            longest_match(items, idx + 1, karan, karan_row, text, limit, from + 1)
        } else {
            None
        };
        let skipped: Option<usize> = if item.optional {
            longest_match(items, idx + 1, karan, karan_row, text, limit, from)
        } else {
            None
        };
        let best: Option<usize> = match (taken, skipped) {
            (Some(a), Some(b)) => if a >= b {
                Some(a)
            } else {
                Some(b)
            },
            (Some(a), None) => Some(a),
            (None, other) => other,
        };
        proof {
            assert forall|t: int|
                (#[trigger] tail_matches(
                    items@,
                    idx as int,
                    karan,
                    text@,
                    limit as int,
                    from as int,
                    t,
                )) implies best is Some && t <= best->0 by {
                lemma_tail_step(items@, idx as int, karan, text@, limit as int, from as int, t);
            }
            if best is Some {
                lemma_tail_step(
                    items@,
                    idx as int,
                    karan,
                    text@,
                    limit as int,
                    from as int,
                    best->0 as int,
                );
            }
        }
        best
    }
}

/// The end of the longest match of one of the shapes of `table` from `from`.
fn longest_shape_match(
    table: &Vec<ShapeRow>,
    karan_row: &Vec<Item>,
    text: &[char],
    limit: usize,
    from: usize,
) -> (r: Option<usize>)
    requires
        from <= limit <= text@.len(),
        karan_row@ == karan_items(),
    ensures
        r is Some ==> from <= r->0 <= limit && is_longest_end(
            shapes_of(table@),
            text@,
            limit as int,
            from as int,
            r->0 as int,
        ),
        r is None ==> forall|t: int|
            !#[trigger] some_shape_matches(shapes_of(table@), text@, limit as int, from as int, t),
{
    let ghost shapes = shapes_of(table@);
    let mut best: Option<usize> = None;
    let mut index: usize = 0;
    while index < table.len()
        invariant
            index <= table@.len(),
            shapes == shapes_of(table@),
            from <= limit <= text@.len(),
            karan_row@ == karan_items(),
            best is Some ==> from <= best->0 <= limit && some_shape_matches(
                shapes,
                text@,
                limit as int,
                from as int,
                best->0 as int,
            ),
            forall|i: int, t: int|
                0 <= i < index && #[trigger] shape_matches(
                    shapes[i],
                    text@,
                    limit as int,
                    from as int,
                    t,
                ) ==> best is Some && t <= best->0,
        decreases table@.len() - index,
    {
        let row: &ShapeRow = &table[index];
        let found = longest_match(&row.items, 0, row.karan, karan_row, text, limit, from);
        proof {
            assert(row.items@.skip(0) =~= row.items@);
            assert(shapes[index as int] == row@);
            assert forall|t: int|
                shape_matches(shapes[index as int], text@, limit as int, from as int, t) implies tail_matches(
                row.items@,
                0,
                row.karan,
                text@,
                limit as int,
                from as int,
                t,
            ) by {}
        }
        match found {
            Some(to) => {
                let better: bool = match best {
                    Some(b) => to > b,
                    None => true,
                };
                if better {
                    best = Some(to);
                }
            },
            None => {},
        }
        index += 1;
    }
    best
}

/// Where the cluster that starts at `from` ends.
fn cluster_end_at(
    shapes: &Vec<ShapeRow>,
    lookahead: &Vec<ShapeRow>,
    karan_row: &Vec<Item>,
    text: &[char],
    from: usize,
) -> (end: usize)
    requires
        from < text@.len(),
        shapes_of(shapes@) == cluster_shapes(),
        shapes_of(lookahead@) == lookahead_shapes(),
        karan_row@ == karan_items(),
    ensures
        end == cluster_end(text@, from as int),
        from < end <= text@.len(),
{
    let n: usize = text.len();
    match longest_shape_match(shapes, karan_row, text, n, from) {
        Some(to) => {
            proof {
                let chosen = choose|t: int|
                    is_longest_end(cluster_shapes(), text@, n as int, from as int, t);
                assert(chosen == to);
                assert(longest_end(text@, from as int) == Some(to as int));
            }
            let shortened: bool = longest_shape_match(lookahead, karan_row, text, to, from).is_some();
            let end: usize = if shortened && to > 0 {
                to - 1
            } else {
                to
            };
            if end > from {
                end
            } else {
                from + 1
            }
        },
        None => {
            from + 1
        },
    }
}

/// The set of the indices at which the clusters of `text` end, counted in
/// characters.
pub fn tcc_pos(text: &CustomString) -> (set: FxHashSet<usize>)
    ensures
        forall|i: usize| #[trigger] set@.contains(i) <==> tcc_boundaries(text@).contains(i as int),
        forall|i: usize| #[trigger] set@.contains(i) ==> 0 < i <= text@.len(),
        text@.len() > 0 ==> set@.contains(text@.len() as usize),
{
    let chars: &[char] = text.get_chars_content();
    proof {
        if text@.len() > 0 {
            lemma_text_end_is_boundary(text@, 0);
        }
    }
    let shapes = cluster_shape_table();
    let lookahead = lookahead_shape_table();
    let karan = karan_row();
    let mut set: FxHashSet<usize> = index_set_new();
    let mut position: usize = 0;
    while position < chars.len()
        invariant
            chars@ == text@,
            position <= chars@.len(),
            shapes_of(shapes@) == cluster_shapes(),
            shapes_of(lookahead@) == lookahead_shapes(),
            karan@ == karan_items(),
            forall|i: usize|
                tcc_boundaries(text@).contains(i as int) <==> (#[trigger] set@.contains(i)
                    || cluster_ends_from(text@, position as int).contains(i as int)),
        decreases chars@.len() - position,
    {
        let end: usize = cluster_end_at(&shapes, &lookahead, &karan, chars, position);
        let ghost before = set@;
        index_set_insert(&mut set, end);
        proof {
            assert(cluster_ends_from(text@, position as int) == cluster_ends_from(
                text@,
                end as int,
            ).insert(end as int));
            assert forall|i: usize|
                tcc_boundaries(text@).contains(i as int) <==> (#[trigger] set@.contains(i)
                    || cluster_ends_from(text@, end as int).contains(i as int)) by {
                assert(set@.contains(i) == (before.contains(i) || i == end));
            }
        }
        position = end;
    }
    set
}

/// The clusters of `text`, one after another.
pub fn tcc_segment(text: &CustomString) -> (clusters: Vec<CustomString>)
    ensures
        clusters@.len() == clusters_from(text@, 0).len(),
        forall|i: int|
            0 <= i < clusters@.len() ==> (#[trigger] clusters@[i])@ == clusters_from(text@, 0)[i],
{
    let chars: &[char] = text.get_chars_content();
    let shapes = cluster_shape_table();
    let lookahead = lookahead_shape_table();
    let karan = karan_row();
    let mut clusters: Vec<CustomString> = Vec::new();
    let mut position: usize = 0;
    let ghost mut done: Seq<Seq<char>> = Seq::empty();
    while position < chars.len()
        invariant
            chars@ == text@,
            position <= chars@.len(),
            shapes_of(shapes@) == cluster_shapes(),
            shapes_of(lookahead@) == lookahead_shapes(),
            karan@ == karan_items(),
            done.len() == clusters@.len(),
            forall|i: int| 0 <= i < clusters@.len() ==> (#[trigger] clusters@[i])@ == done[i],
            clusters_from(text@, 0) == done + clusters_from(text@, position as int),
        decreases chars@.len() - position,
    {
        let end: usize = cluster_end_at(&shapes, &lookahead, &karan, chars, position);
        let cluster = text.substring(position, end);
        proof {
            let rest = clusters_from(text@, end as int);
            assert(done + (seq![cluster@] + rest) =~= done.push(cluster@) + rest);
            done = done.push(cluster@);
        }
        clusters.push(cluster);
        position = end;
    }
    proof {
        assert(done + Seq::<Seq<char>>::empty() =~= done);
    }
    clusters
}


/// A cluster is not empty and ends inside the text.
pub proof fn lemma_cluster_end_bounds(text: Seq<char>, from: int)
    requires
        0 <= from < text.len(),
    ensures
        from < cluster_end(text, from) <= text.len(),
{
    let n = text.len() as int;
    if longest_end(text, from) is Some {
        let to = longest_end(text, from)->0;
        assert(is_longest_end(cluster_shapes(), text, n, from, to));
        let i = choose|i: int|
            0 <= i < cluster_shapes().len() && shape_matches(
                #[trigger] cluster_shapes()[i],
                text,
                n,
                from,
                to,
            );
        lemma_shape_match_bounds(cluster_shapes()[i], text, n, from, to);
    }
}

/// The end of a text is the end of its last cluster.
pub proof fn lemma_text_end_is_boundary(text: Seq<char>, from: int)
    requires
        0 <= from < text.len(),
    ensures
        cluster_ends_from(text, from).contains(text.len() as int),
        forall|x: int| #[trigger] cluster_ends_from(text, from).contains(x) ==> from < x <= text.len(),
    decreases text.len() - from,
{
    lemma_cluster_end_bounds(text, from);
    let end = cluster_end(text, from);
    if end < text.len() {
        lemma_text_end_is_boundary(text, end);
    }
    assert forall|x: int| #[trigger] cluster_ends_from(text, from).contains(x) implies from < x
        <= text.len() by {
        if x != end {
            assert(cluster_ends_from(text, end).contains(x));
        }
    }
}

/// A match within a limit is a match within any limit that it does not
/// pass.
proof fn lemma_match_limit(items: Seq<Item>, text: Seq<char>, limit: int, other: int, from: int, to: int)
    requires
        items_match(items, text, limit, from, to),
        from <= limit,
        to <= other <= text.len(),
    ensures
        items_match(items, text, other, from, to),
    decreases items.len(),
{
    if items.len() > 0 {
        if items[0].optional && items_match(items.drop_first(), text, limit, from, to) {
            lemma_match_limit(items.drop_first(), text, limit, other, from, to);
        } else {
            lemma_match_bounds(items.drop_first(), text, limit, from + 1, to);
            lemma_match_limit(items.drop_first(), text, limit, other, from + 1, to);
        }
    }
}

/// A match in a text is a match in the part of the text that holds it.
proof fn lemma_match_in_part(items: Seq<Item>, text: Seq<char>, a: int, b: int, from: int, to: int)
    requires
        0 <= a <= from,
        b <= text.len(),
        items_match(items, text, b, from, to),
        from <= b,
    ensures
        items_match(items, text.subrange(a, b), b - a, from - a, to - a),
    decreases items.len(),
{
    let part = text.subrange(a, b);
    if items.len() > 0 {
        if items[0].optional && items_match(items.drop_first(), text, b, from, to) {
            lemma_match_in_part(items.drop_first(), text, a, b, from, to);
        } else {
            assert(part[from - a] == text[from]);
            lemma_match_in_part(items.drop_first(), text, a, b, from + 1, to);
        }
    }
}

/// A match in a part of a text is a match in the text.
proof fn lemma_match_of_part(items: Seq<Item>, text: Seq<char>, a: int, b: int, from: int, to: int)
    requires
        0 <= a <= b <= text.len(),
        0 <= from <= b - a,
        items_match(items, text.subrange(a, b), b - a, from, to),
    ensures
        items_match(items, text, b, from + a, to + a),
    decreases items.len(),
{
    let part = text.subrange(a, b);
    if items.len() > 0 {
        if items[0].optional && items_match(items.drop_first(), part, b - a, from, to) {
            lemma_match_of_part(items.drop_first(), text, a, b, from, to);
        } else {
            assert(part[from] == text[from + a]);
            lemma_match_of_part(items.drop_first(), text, a, b, from + 1, to);
        }
    }
}

/// What matches from `from` up to at most `b` in a text is what matches
/// from the start in the part of the text from `from` to `b`.
proof fn lemma_shapes_in_part(shapes: Seq<Shape>, text: Seq<char>, from: int, b: int, to: int)
    requires
        0 <= from <= b <= text.len(),
    ensures
        some_shape_matches(shapes, text, b, from, to) <==> some_shape_matches(
            shapes,
            text.subrange(from, b),
            b - from,
            0,
            to - from,
        ),
{
    let part = text.subrange(from, b);
    if some_shape_matches(shapes, text, b, from, to) {
        let i = choose|i: int|
            0 <= i < shapes.len() && shape_matches(#[trigger] shapes[i], text, b, from, to);
        if items_match(shapes[i].items, text, b, from, to) {
            lemma_match_in_part(shapes[i].items, text, from, b, from, to);
        } else {
            lemma_match_in_part(shapes[i].items + karan_items(), text, from, b, from, to);
        }
        assert(shape_matches(shapes[i], part, b - from, 0, to - from));
    }
    if some_shape_matches(shapes, part, b - from, 0, to - from) {
        let i = choose|i: int|
            0 <= i < shapes.len() && shape_matches(#[trigger] shapes[i], part, b - from, 0, to - from);
        if items_match(shapes[i].items, part, b - from, 0, to - from) {
            lemma_match_of_part(shapes[i].items, text, from, b, 0, to - from);
        } else {
            lemma_match_of_part(shapes[i].items + karan_items(), text, from, b, 0, to - from);
        }
        assert(shape_matches(shapes[i], text, b, from, to));
    }
}

/// A match of a shape within a limit is a match within any limit that it
/// does not pass.
proof fn lemma_shapes_limit(shapes: Seq<Shape>, text: Seq<char>, limit: int, other: int, from: int, to: int)
    requires
        some_shape_matches(shapes, text, limit, from, to),
        from <= limit,
        to <= other <= text.len(),
    ensures
        some_shape_matches(shapes, text, other, from, to),
{
    let i = choose|i: int|
        0 <= i < shapes.len() && shape_matches(#[trigger] shapes[i], text, limit, from, to);
    if items_match(shapes[i].items, text, limit, from, to) {
        lemma_match_limit(shapes[i].items, text, limit, other, from, to);
    } else {
        lemma_match_limit(shapes[i].items + karan_items(), text, limit, other, from, to);
    }
    assert(shape_matches(shapes[i], text, other, from, to));
}

/// Where a shape matches, there is a longest match.
proof fn lemma_longest_exists(shapes: Seq<Shape>, text: Seq<char>, from: int, to: int)
    requires
        0 <= from <= text.len(),
        some_shape_matches(shapes, text, text.len() as int, from, to),
    ensures
        exists|best: int| is_longest_end(shapes, text, text.len() as int, from, best),
    decreases text.len() - to,
{
    let n = text.len() as int;
    let i = choose|i: int| 0 <= i < shapes.len() && shape_matches(#[trigger] shapes[i], text, n, from, to);
    lemma_shape_match_bounds(shapes[i], text, n, from, to);
    if exists|t: int| t > to && some_shape_matches(shapes, text, n, from, t) {
        let t = choose|t: int| t > to && some_shape_matches(shapes, text, n, from, t);
        let j = choose|j: int| 0 <= j < shapes.len() && shape_matches(#[trigger] shapes[j], text, n, from, t);
        lemma_shape_match_bounds(shapes[j], text, n, from, t);
        lemma_longest_exists(shapes, text, from, t);
    } else {
        assert(is_longest_end(shapes, text, n, from, to));
    }
}

/// A cluster of a text that does not give its last character to the next
/// cluster is, taken by itself, one cluster.
pub proof fn lemma_cluster_alone(text: Seq<char>, from: int)
    requires
        0 <= from < text.len(),
        !ends_early(text, from),
    ensures
        tcc_boundaries(text.subrange(from, cluster_end(text, from))) == Set::<int>::empty().insert(
            cluster_end(text, from) - from,
        ),
{
    let n = text.len() as int;
    lemma_cluster_end_bounds(text, from);
    let end = cluster_end(text, from);
    let part = text.subrange(from, end);
    let m = end - from;
    let shapes = cluster_shapes();
    // what matches in the part matches in the text
    assert forall|t: int| #[trigger] some_shape_matches(shapes, part, m, 0, t) implies some_shape_matches(
        shapes,
        text,
        n,
        from,
        t + from,
    ) by {
        lemma_shapes_in_part(shapes, text, from, end, t + from);
        let i = choose|i: int|
            0 <= i < shapes.len() && shape_matches(#[trigger] shapes[i], text, end, from, t + from);
        lemma_shape_match_bounds(shapes[i], text, end, from, t + from);
        lemma_shapes_limit(shapes, text, end, n, from, t + from);
    }
    if longest_end(text, from) is Some && longest_end(text, from)->0 > from {
        let to = longest_end(text, from)->0;
        assert(is_longest_end(shapes, text, n, from, to));
        assert(end == to);
        lemma_shapes_limit(shapes, text, n, to, from, to);
        lemma_shapes_in_part(shapes, text, from, to, to);
        assert(is_longest_end(shapes, part, m, 0, m)) by {
            assert forall|t: int| #[trigger] some_shape_matches(shapes, part, m, 0, t) implies t <= m by {
                assert(some_shape_matches(shapes, text, n, from, t + from));
            }
        }
        let chosen = longest_end(part, 0)->0;
        assert(is_longest_end(shapes, part, m, 0, chosen));
        assert(chosen == m);
        if cut_short(part, 0, m) {
            let e = choose|e: int| some_shape_matches(lookahead_shapes(), part, m, 0, e);
            lemma_shapes_in_part(lookahead_shapes(), text, from, to, e + from);
            assert(some_shape_matches(lookahead_shapes(), text, to, from, e + from));
        }
        assert(cluster_end(part, 0) == m);
    } else {
        assert(m == 1);
        assert forall|t: int| #[trigger] some_shape_matches(shapes, part, m, 0, t) implies t <= 0 by {
            assert(some_shape_matches(shapes, text, n, from, t + from));
            if longest_end(text, from) is Some {
                assert(is_longest_end(shapes, text, n, from, longest_end(text, from)->0));
            } else {
                lemma_longest_exists(shapes, text, from, t + from);
            }
        }
        if longest_end(part, 0) is Some {
            let chosen = longest_end(part, 0)->0;
            assert(is_longest_end(shapes, part, m, 0, chosen));
            assert(chosen <= 0);
        }
        assert(cluster_end(part, 0) == 1);
    }
    assert(cluster_ends_from(part, m) =~= Set::<int>::empty());
    assert(cluster_ends_from(part, 0) == cluster_ends_from(part, m).insert(m));
}

} // verus!
