//! Ways through the graph of candidate tokens: from an index to a later
//! one by the fewest tokens.

use vstd::prelude::*;

verus! {

/// The indices of `v` as integers.
pub open spec fn ints_of(v: Seq<usize>) -> Seq<int> {
    Seq::new(v.len(), |i: int| v[i] as int)
}

/// The graph of candidate tokens: for each start index the end indices that
/// one token reaches from it, in the order in which they were found.
pub open spec fn edges_of(graph: Seq<Vec<usize>>) -> Seq<Seq<int>> {
    Seq::new(graph.len(), |i: int| ints_of(graph[i]@))
}

/// A way to the goal: how many hops it takes, and where its first hop
/// leads.
pub struct Way {
    pub hops: nat,
    pub next: int,
}

/// The better of two ways: the one with fewer hops, and the first where
/// both have as many.
pub open spec fn fewer_hops(first: Option<Way>, second: Option<Way>) -> Option<Way> {
    match (first, second) {
        (Some(a), Some(b)) => if b.hops < a.hops {
            Some(b)
        } else {
            Some(a)
        },
        (Some(a), None) => Some(a),
        (None, other) => other,
    }
}

/// The best way from `v` to `goal` whose first hop is one of the first `k`
/// edges of `v`: the number of hops, and where the first hop leads. Among
/// the ways with the fewest hops it is the one whose first hop comes first
/// in the list of edges. `None` where there is no way.
pub open spec fn best_way(graph: Seq<Seq<int>>, goal: int, v: int, k: nat) -> Option<Way>
    decreases goal - v, k,
{
    if v == goal {
        Some(Way { hops: 0, next: goal })
    } else if !(0 <= v < goal && v < graph.len()) || k == 0 || k > graph[v].len() {
        None
    } else {
        let next = graph[v][k - 1];
        let before = best_way(graph, goal, v, (k - 1) as nat);
        let through: Option<Way> = if v < next <= goal && next < graph.len() {
            match best_way(graph, goal, next, graph[next].len()) {
                Some(onward) => Some(Way { hops: onward.hops + 1, next: next }),
                None => None,
            }
        } else {
            None
        };
        fewer_hops(before, through)
    }
}

/// The best way from `v` to `goal` by any of the edges of `v`.
pub open spec fn way(graph: Seq<Seq<int>>, goal: int, v: int) -> Option<Way> {
    if 0 <= v < graph.len() {
        best_way(graph, goal, v, graph[v].len())
    } else {
        None
    }
}

/// The indices that the best way from `v` to `goal` passes after `v`, the
/// goal last.
pub open spec fn chain(graph: Seq<Seq<int>>, goal: int, v: int) -> Seq<int>
    decreases goal - v,
{
    match way(graph, goal, v) {
        Some(w) => if v < w.next <= goal {
            seq![w.next] + chain(graph, goal, w.next)
        } else {
            Seq::empty()
        },
        None => Seq::empty(),
    }
}

/// The best way takes no more hops than there are indices up to the goal,
/// and its first hop leads forward, to an index from which there is a way
/// with one hop less.
pub proof fn lemma_best_way(graph: Seq<Seq<int>>, goal: int, v: int, k: nat)
    requires
        best_way(graph, goal, v, k) is Some,
    ensures
        v <= goal,
        best_way(graph, goal, v, k)->0.hops <= goal - v,
        v == goal ==> best_way(graph, goal, v, k)->0 == (Way { hops: 0, next: goal }),
        v < goal ==> ({
            let w = best_way(graph, goal, v, k)->0;
            &&& v < w.next <= goal
            &&& w.next < graph.len()
            &&& way(graph, goal, w.next) is Some
            &&& way(graph, goal, w.next)->0.hops + 1 == w.hops
            &&& exists|j: int| 0 <= j < k && j < graph[v].len() && #[trigger] graph[v][j] == w.next
        }),
    decreases goal - v, k,
{
    if v != goal {
        let next = graph[v][k - 1];
        let before = best_way(graph, goal, v, (k - 1) as nat);
        if before is Some {
            lemma_best_way(graph, goal, v, (k - 1) as nat);
            let j = choose|j: int|
                0 <= j < k - 1 && j < graph[v].len() && #[trigger] graph[v][j] == before->0.next;
            assert(graph[v][j] == before->0.next);
        }
        if v < next <= goal && next < graph.len() {
            if best_way(graph, goal, next, graph[next].len()) is Some {
                lemma_best_way(graph, goal, next, graph[next].len());
                assert(graph[v][k - 1] == next);
            }
        }
    }
}

/// Whether the graph holds an edge from `from` to `to`.
pub open spec fn has_edge(graph: Seq<Seq<int>>, from: int, to: int) -> bool {
    0 <= from < graph.len() && exists|j: int| 0 <= j < graph[from].len() && #[trigger] graph[from][j] == to
}

/// Where the `i`-th hop of a chain from `v` starts.
pub open spec fn hop_start(hops: Seq<int>, v: int, i: int) -> int {
    if i <= 0 {
        v
    } else {
        hops[i - 1]
    }
}

/// Where there is a way from `v` to `goal`, the chain leads forward hop by
/// hop along edges of the graph and ends at the goal.
pub proof fn lemma_chain(graph: Seq<Seq<int>>, goal: int, v: int)
    requires
        way(graph, goal, v) is Some,
    ensures
        chain(graph, goal, v).len() == way(graph, goal, v)->0.hops,
        forall|i: int|
            0 <= i < chain(graph, goal, v).len() ==> has_edge(
                graph,
                hop_start(chain(graph, goal, v), v, i),
                #[trigger] chain(graph, goal, v)[i],
            ),
        v < goal ==> chain(graph, goal, v).len() > 0 && chain(graph, goal, v).last() == goal,
        forall|i: int|
            0 <= i < chain(graph, goal, v).len() ==> v < #[trigger] chain(graph, goal, v)[i] <= goal,
        forall|i: int, j: int|
            0 <= i < j < chain(graph, goal, v).len() ==> chain(graph, goal, v)[i] < chain(
                graph,
                goal,
                v,
            )[j],
    decreases goal - v,
{
    lemma_best_way(graph, goal, v, graph[v].len());
    if v < goal {
        let w = way(graph, goal, v)->0;
        lemma_chain(graph, goal, w.next);
        let rest = chain(graph, goal, w.next);
        let all = chain(graph, goal, v);
        assert(all == seq![w.next] + rest);
        assert forall|i: int| 0 <= i < all.len() implies v < #[trigger] all[i] <= goal by {
            if i > 0 {
                assert(all[i] == rest[i - 1]);
            }
        }
        assert forall|i: int, j: int| 0 <= i < j < all.len() implies all[i] < all[j] by {
            assert(all[j] == rest[j - 1]);
            if i > 0 {
                assert(all[i] == rest[i - 1]);
            }
        }
        if rest.len() > 0 {
            assert(all.last() == rest.last());
        }
        assert forall|i: int| 0 <= i < all.len() implies has_edge(
            graph,
            hop_start(all, v, i),
            #[trigger] all[i],
        ) by {
            if i == 0 {
                let j = choose|j: int|
                    0 <= j < graph[v].len() && #[trigger] graph[v][j] == w.next;
                assert(graph[v][j] == all[0]);
            } else {
                assert(all[i] == rest[i - 1]);
                assert(has_edge(graph, hop_start(rest, w.next, i - 1), rest[i - 1]));
                if i > 1 {
                    assert(all[i - 1] == rest[i - 2]);
                }
            }
        }
    }
}

/// A way by one of the first edges is a way by one of more edges.
pub proof fn lemma_more_edges(graph: Seq<Seq<int>>, goal: int, v: int, k: nat, more: nat)
    requires
        best_way(graph, goal, v, k) is Some,
        0 <= v < graph.len(),
        k <= more <= graph[v].len(),
    ensures
        best_way(graph, goal, v, more) is Some,
    decreases more - k,
{
    if more > k && v != goal {
        lemma_more_edges(graph, goal, v, k, (more - 1) as nat);
    }
}

/// An edge to an index from which there is a way is the start of a way.
pub proof fn lemma_edge_then_way(graph: Seq<Seq<int>>, goal: int, v: int, j: int)
    requires
        0 <= v < goal,
        v < graph.len(),
        0 <= j < graph[v].len(),
        v < graph[v][j] <= goal,
        way(graph, goal, graph[v][j]) is Some,
    ensures
        way(graph, goal, v) is Some,
{
    let next = graph[v][j];
    assert(best_way(graph, goal, v, (j + 1) as nat) is Some);
    lemma_more_edges(graph, goal, v, (j + 1) as nat, graph[v].len());
}

/// The graph with one more edge, from `from` to `to`.
pub open spec fn graph_with(graph: Seq<Seq<int>>, from: int, to: int) -> Seq<Seq<int>> {
    graph.update(from, graph[from].push(to))
}

/// A way stays a way when the graph gets one more edge.
pub proof fn lemma_way_survives(graph: Seq<Seq<int>>, from: int, to: int, goal: int, v: int, k: nat)
    requires
        0 <= from < graph.len(),
        best_way(graph, goal, v, k) is Some,
    ensures
        best_way(graph_with(graph, from, to), goal, v, k) is Some,
        0 <= v < graph.len() && k == graph[v].len() ==> way(graph_with(graph, from, to), goal, v) is Some,
    decreases goal - v, k,
{
    let wider = graph_with(graph, from, to);
    if v != goal {
        let next = graph[v][k - 1];
        assert(wider[v][k - 1] == next);
        let before = best_way(graph, goal, v, (k - 1) as nat);
        if before is Some {
            lemma_way_survives(graph, from, to, goal, v, (k - 1) as nat);
        } else {
            assert(v < next <= goal && next < graph.len());
            lemma_way_survives(graph, from, to, goal, next, graph[next].len());
            assert(way(wider, goal, next) is Some);
        }
        assert(best_way(wider, goal, v, k) is Some);
        if k == graph[v].len() {
            lemma_more_edges(wider, goal, v, k, wider[v].len());
        }
    } else {
        if 0 <= v < graph.len() {
            assert(best_way(wider, goal, v, wider[v].len()) is Some);
        }
    }
}

/// A way to an index and an edge from there make a way to where the edge
/// leads.
pub proof fn lemma_way_then_edge(graph: Seq<Seq<int>>, v: int, over: int, j: int)
    requires
        way(graph, over, v) is Some,
        0 <= over < graph.len(),
        0 <= j < graph[over].len(),
        over < graph[over][j] < graph.len(),
    ensures
        way(graph, graph[over][j], v) is Some,
    decreases over - v,
{
    let goal = graph[over][j];
    lemma_best_way(graph, over, v, graph[v].len());
    if v == over {
        assert(way(graph, goal, goal) is Some);
        lemma_edge_then_way(graph, goal, over, j);
    } else {
        let w = way(graph, over, v)->0;
        lemma_way_then_edge(graph, w.next, over, j);
        let i = choose|i: int| 0 <= i < graph[v].len() && #[trigger] graph[v][i] == w.next;
        lemma_edge_then_way(graph, goal, v, i);
    }
}

/// No way was found from `start` to `goal` in the graph of candidate
/// tokens.
#[derive(Clone, Debug)]
pub struct BFSSearchError {
    /// Where the way should start.
    pub start: usize,
    /// Where the way should end.
    pub goal: usize,
}

impl BFSSearchError {
    /// The error for the way from `start` to `goal`.
    pub fn new(start: usize, goal: usize) -> (e: Self)
        ensures
            e.start == start,
            e.goal == goal,
    {
        Self { start, goal }
    }
}

/// What is known of an index while the ways to the goal are worked out.
pub open spec fn way_of(entry: Option<(usize, usize)>) -> Option<Way> {
    match entry {
        Some(w) => Some(Way { hops: w.0 as nat, next: w.1 as int }),
        None => None,
    }
}

/// The best way from `start` to `goal`: the indices that it passes, `start`
/// first and `goal` last. It takes the fewest hops, and at each index the
/// first edge that does so.
pub fn bfs_paths_graph(graph: &Vec<Vec<usize>>, start: usize, goal: usize) -> (r: Result<
    Vec<usize>,
    BFSSearchError,
>)
    requires
        start <= goal < graph@.len(),
    ensures
        r is Ok == way(edges_of(graph@), goal as int, start as int) is Some,
        r is Ok ==> ints_of(r->Ok_0@) == seq![start as int] + chain(
            edges_of(graph@),
            goal as int,
            start as int,
        ),
        r is Err ==> r->Err_0.start == start && r->Err_0.goal == goal,
{
    let ghost edges = edges_of(graph@);
    let nodes: usize = graph.len();
    let width: usize = goal - start + 1;
    let mut ways: Vec<Option<(usize, usize)>> = Vec::with_capacity(width);
    let mut filled: usize = 0;
    while filled < width
        invariant
            filled <= width,
            ways@.len() == filled,
        decreases width - filled,
    {
        ways.push(None);
        filled += 1;
    }
    ways.set(goal - start, Some((0, goal)));
    let mut v: usize = goal;
    while v > start
        invariant
            start <= v <= goal < graph@.len(),
            edges == edges_of(graph@),
            ways@.len() == goal - start + 1,
            forall|i: int|
                v - start <= i <= goal - start ==> way_of(#[trigger] ways@[i]) == way(
                    edges,
                    goal as int,
                    start + i,
                ),
        decreases v,
    {
        v -= 1;
        let ends: &Vec<usize> = &graph[v];
        let mut found: Option<(usize, usize)> = None;
        let mut k: usize = 0;
        while k < ends.len()
            invariant
                start <= v < goal < graph@.len(),
                edges == edges_of(graph@),
                ends@ == graph@[v as int]@,
                k <= ends@.len(),
                ways@.len() == goal - start + 1,
                forall|i: int|
                    v - start < i <= goal - start ==> way_of(#[trigger] ways@[i]) == way(
                        edges,
                        goal as int,
                        start + i,
                    ),
                way_of(found) == best_way(edges, goal as int, v as int, k as nat),
            decreases ends@.len() - k,
        {
            let next: usize = ends[k];
            proof {
                assert(edges[v as int][k as int] == next as int);
                assert(edges[v as int].len() == ends@.len());
            }
            if v < next && next <= goal {
                proof {
                    assert(way_of(ways@[next - start]) == way(edges, goal as int, next as int));
                    if way(edges, goal as int, next as int) is Some {
                        lemma_best_way(edges, goal as int, next as int, edges[next as int].len());
                    }
                }
                match ways[next - start] {
                    Some(onward) => {
                        let better: bool = match found {
                            Some(f) => onward.0 + 1 < f.0,
                            None => true,
                        };
                        if better {
                            found = Some((onward.0 + 1, next));
                        }
                    },
                    None => {},
                }
            }
            k += 1;
        }
        ways.set(v - start, found);
    }
    proof {
        assert(way_of(ways@[0]) == way(edges, goal as int, start + 0));
    }
    match ways[0] {
        None => Err(BFSSearchError::new(start, goal)),
        Some(_) => {
            let mut path: Vec<usize> = Vec::new();
            path.push(start);
            let mut at: usize = start;
            proof {
                assert(ints_of(path@) + chain(edges, goal as int, at as int) =~= seq![start as int]
                    + chain(edges, goal as int, start as int));
            }
            while at != goal
                invariant
                    start <= at <= goal < graph@.len(),
                    edges == edges_of(graph@),
                    ways@.len() == goal - start + 1,
                    forall|i: int|
                        0 <= i <= goal - start ==> way_of(#[trigger] ways@[i]) == way(
                            edges,
                            goal as int,
                            start + i,
                        ),
                    way(edges, goal as int, at as int) is Some,
                    ints_of(path@) + chain(edges, goal as int, at as int) == seq![start as int]
                        + chain(edges, goal as int, start as int),
                decreases goal - at,
            {
                proof {
                    lemma_best_way(edges, goal as int, at as int, edges[at as int].len());
                    assert(way_of(ways@[at - start]) == way(edges, goal as int, at as int));
                }
                let next: usize = match ways[at - start] {
                    Some(w) => w.1,
                    None => goal,
                };
                proof {
                    let rest = chain(edges, goal as int, next as int);
                    assert(chain(edges, goal as int, at as int) == seq![next as int] + rest);
                    assert(ints_of(path@.push(next)) + rest =~= ints_of(path@) + (seq![next as int]
                        + rest));
                }
                path.push(next);
                at = next;
            }
            proof {
                assert(chain(edges, goal as int, goal as int) =~= Seq::<int>::empty());
                assert(ints_of(path@) + Seq::<int>::empty() =~= ints_of(path@));
            }
            Ok(path)
        },
    }
}

} // verus!
