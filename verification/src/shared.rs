//! Candidate and accepted pairs, and the grouping of accepted pairs into
//! connected components.
use crate::cli::Executable;
use crate::formatting::join_names;
use crate::formatting::joined;
use crate::formatting::name_views;
use crate::similarity::Similarity;
use std::collections::HashMap;
use std::collections::HashSet;
use vstd::prelude::*;
use vstd::std_specs::hash::*;

verus! {

/// Two dense indices that the approximate index holds to be worth comparing.
#[derive(Debug)]
pub struct CompareTask {
    pub index1: usize,
    pub index2: usize,
}

/// A compared pair of dense indices that was accepted as a match.
#[derive(Debug)]
pub struct Pairing {
    pub index1: usize,
    pub index2: usize,
    /// The similarity for which the pair was accepted.
    pub score: Similarity,
}

/// `pair` is an edge between `a` and `b`, in either direction.
pub open spec fn joins(pair: Pairing, a: usize, b: usize) -> bool {
    (pair.index1 == a && pair.index2 == b) || (pair.index1 == b && pair.index2 == a)
}

/// Some pair joins `a` and `b`.
pub open spec fn adjacent(pairs: Seq<Pairing>, a: usize, b: usize) -> bool {
    exists|i: int| 0 <= i < pairs.len() && joins(#[trigger] pairs[i], a, b)
}

/// `a` occurs in some pair.
pub open spec fn is_node(pairs: Seq<Pairing>, a: usize) -> bool {
    exists|b: usize| adjacent(pairs, a, b)
}

/// `path` is a non-empty walk along pairs.
pub open spec fn is_path(pairs: Seq<Pairing>, path: Seq<usize>) -> bool {
    &&& path.len() > 0
    &&& forall|i: int| 0 <= i < path.len() - 1 ==> adjacent(pairs, #[trigger] path[i], path[i + 1])
}

/// `a` and `b` are linked by pairs, directly or through other indices.
pub open spec fn connected(pairs: Seq<Pairing>, a: usize, b: usize) -> bool {
    exists|path: Seq<usize>| #[trigger] is_path(pairs, path) && path.first() == a && path.last() == b
}

/// `group` lists, each once, exactly the indices connected to its first
/// member, and all of them occur in some pair.
pub open spec fn is_component(pairs: Seq<Pairing>, group: Seq<usize>) -> bool {
    &&& group.len() > 0
    &&& group.no_duplicates()
    &&& forall|b: usize|
        #![trigger group.contains(b)]
        #![trigger connected(pairs, group[0], b)]
        group.contains(b) <==> connected(pairs, group[0], b)
    &&& forall|j: int| 0 <= j < group.len() ==> is_node(pairs, #[trigger] group[j])
}

/// `groups` are the connected components of the graph whose edges are
/// `pairs`: each group is a component, no index is in two groups, and every
/// index that occurs in a pair is in one.
pub open spec fn is_grouping(pairs: Seq<Pairing>, groups: Seq<Seq<usize>>) -> bool {
    &&& forall|g: int| 0 <= g < groups.len() ==> is_component(pairs, #[trigger] groups[g])
    &&& forall|g: int, h: int, a: usize|
        0 <= g < h < groups.len() && #[trigger] groups[g].contains(a) ==> !#[trigger] groups[h].contains(a)
    &&& forall|a: usize|
        is_node(pairs, a) ==> exists|g: int| 0 <= g < groups.len() && (#[trigger] groups[g]).contains(a)
}

/// The groups as sequences of indices.
pub open spec fn group_views(groups: Seq<Vec<usize>>) -> Seq<Seq<usize>> {
    groups.map_values(|group: Vec<usize>| group@)
}

/// The neighbours recorded for `a`, none where it has no entry.
spec fn neighbors_in(graph: Map<usize, Vec<usize>>, a: usize) -> Seq<usize> {
    if graph.contains_key(a) {
        graph[a]@
    } else {
        Seq::empty()
    }
}

/// `graph` is the adjacency list of `pairs`.
spec fn graph_matches(pairs: Seq<Pairing>, graph: Map<usize, Vec<usize>>) -> bool {
    &&& forall|a: usize, b: usize| #[trigger]
        adjacent(pairs, a, b) ==> graph.contains_key(a) && graph[a]@.contains(b)
    &&& forall|a: usize, b: usize|
        graph.contains_key(a) && #[trigger] graph[a]@.contains(b) ==> adjacent(pairs, a, b)
    &&& forall|a: usize| #[trigger] graph.contains_key(a) ==> graph[a]@.len() > 0
}

/// Every neighbour of a member of `seen` is in `seen`.
spec fn closed(pairs: Seq<Pairing>, seen: Set<usize>) -> bool {
    forall|a: usize, b: usize| seen.contains(a) && #[trigger] adjacent(pairs, a, b) ==> seen.contains(b)
}

/// What a sequence holds after one more value was pushed.
pub proof fn lemma_contains_push(s: Seq<usize>, x: usize, y: usize)
    ensures
        s.push(x).contains(y) <==> s.contains(y) || y == x,
{
    if s.push(x).contains(y) {
        let i = choose|i: int| 0 <= i < s.push(x).len() && s.push(x)[i] == y;
        if i < s.len() {
            assert(s[i] == y);
        }
    }
    if s.contains(y) {
        let i = choose|i: int| 0 <= i < s.len() && s[i] == y;
        assert(s.push(x)[i] == y);
    }
    if y == x {
        assert(s.push(x)[s.len() as int] == y);
    }
}

proof fn lemma_adjacent_push(pairs: Seq<Pairing>, pair: Pairing, a: usize, b: usize)
    ensures
        adjacent(pairs.push(pair), a, b) <==> adjacent(pairs, a, b) || joins(pair, a, b),
{
    let more = pairs.push(pair);
    if adjacent(more, a, b) {
        let i = choose|i: int| 0 <= i < more.len() && joins(#[trigger] more[i], a, b);
        if i < pairs.len() {
            assert(joins(pairs[i], a, b));
        }
    }
    if adjacent(pairs, a, b) {
        let i = choose|i: int| 0 <= i < pairs.len() && joins(#[trigger] pairs[i], a, b);
        assert(joins(more[i], a, b));
    }
    if joins(pair, a, b) {
        assert(joins(more[pairs.len() as int], a, b));
    }
}

/// Adjacency does not depend on the direction in which it is asked.
pub proof fn lemma_adjacent_symmetric(pairs: Seq<Pairing>, a: usize, b: usize)
    ensures
        adjacent(pairs, a, b) == adjacent(pairs, b, a),
{
    if adjacent(pairs, a, b) {
        let i = choose|i: int| 0 <= i < pairs.len() && joins(#[trigger] pairs[i], a, b);
        assert(joins(pairs[i], b, a));
    }
    if adjacent(pairs, b, a) {
        let i = choose|i: int| 0 <= i < pairs.len() && joins(#[trigger] pairs[i], b, a);
        assert(joins(pairs[i], a, b));
    }
}

/// Every index is connected to itself.
pub proof fn lemma_connected_reflexive(pairs: Seq<Pairing>, a: usize)
    ensures
        connected(pairs, a, a),
{
    let path = seq![a];
    assert(is_path(pairs, path));
    assert(path.first() == a && path.last() == a);
}

/// A connection can be extended by one pair.
pub proof fn lemma_connected_step(pairs: Seq<Pairing>, a: usize, b: usize, c: usize)
    requires
        connected(pairs, a, b),
        adjacent(pairs, b, c),
    ensures
        connected(pairs, a, c),
{
    let path = choose|path: Seq<usize>| #[trigger]
        is_path(pairs, path) && path.first() == a && path.last() == b;
    let longer = path.push(c);
    assert forall|i: int| 0 <= i < longer.len() - 1 implies adjacent(
        pairs,
        #[trigger] longer[i],
        longer[i + 1],
    ) by {
        if i < path.len() - 1 {
            assert(longer[i] == path[i]);
            assert(longer[i + 1] == path[i + 1]);
        } else {
            assert(longer[i] == b);
            assert(longer[i + 1] == c);
        }
    }
    assert(is_path(pairs, longer));
    assert(longer.first() == a && longer.last() == c);
}

/// Connection is symmetric.
pub proof fn lemma_connected_symmetric(pairs: Seq<Pairing>, a: usize, b: usize)
    requires
        connected(pairs, a, b),
    ensures
        connected(pairs, b, a),
{
    let path = choose|path: Seq<usize>| #[trigger]
        is_path(pairs, path) && path.first() == a && path.last() == b;
    let n = path.len() as int;
    let back = Seq::new(path.len(), |i: int| path[n - 1 - i]);
    assert forall|i: int| 0 <= i < back.len() - 1 implies adjacent(
        pairs,
        #[trigger] back[i],
        back[i + 1],
    ) by {
        let j = n - 2 - i;
        assert(adjacent(pairs, path[j], path[j + 1]));
        lemma_adjacent_symmetric(pairs, path[j], path[j + 1]);
    }
    assert(is_path(pairs, back));
    assert(back.first() == b && back.last() == a);
}

/// Connection is transitive.
pub proof fn lemma_connected_transitive(pairs: Seq<Pairing>, a: usize, b: usize, c: usize)
    requires
        connected(pairs, a, b),
        connected(pairs, b, c),
    ensures
        connected(pairs, a, c),
{
    let first = choose|path: Seq<usize>| #[trigger]
        is_path(pairs, path) && path.first() == a && path.last() == b;
    let second = choose|path: Seq<usize>| #[trigger]
        is_path(pairs, path) && path.first() == b && path.last() == c;
    let whole = first + second.subrange(1, second.len() as int);
    assert forall|i: int| 0 <= i < whole.len() - 1 implies adjacent(
        pairs,
        #[trigger] whole[i],
        whole[i + 1],
    ) by {
        if i < first.len() - 1 {
            assert(whole[i] == first[i] && whole[i + 1] == first[i + 1]);
        } else if i == first.len() - 1 {
            assert(whole[i] == second[0]);
            assert(whole[i + 1] == second[1]);
        } else {
            let j = i - first.len() + 1;
            assert(whole[i] == second[j] && whole[i + 1] == second[j + 1]);
        }
    }
    assert(is_path(pairs, whole));
    assert(whole.first() == a);
    if second.len() == 1 {
        assert(whole.last() == first.last());
    } else {
        assert(whole.last() == second.last());
    }
}

proof fn lemma_path_stays(pairs: Seq<Pairing>, seen: Set<usize>, path: Seq<usize>, i: int)
    requires
        closed(pairs, seen),
        is_path(pairs, path),
        seen.contains(path[0]),
        0 <= i < path.len(),
    ensures
        seen.contains(path[i]),
    decreases i,
{
    if i > 0 {
        lemma_path_stays(pairs, seen, path, i - 1);
        assert(adjacent(pairs, path[i - 1], path[i - 1 + 1]));
    }
}

/// A set that holds all neighbours of its members holds everything that is
/// connected to one of them.
proof fn lemma_closed_holds_connected(pairs: Seq<Pairing>, seen: Set<usize>, a: usize, b: usize)
    requires
        closed(pairs, seen),
        seen.contains(a),
        connected(pairs, a, b),
    ensures
        seen.contains(b),
{
    let path = choose|path: Seq<usize>| #[trigger]
        is_path(pairs, path) && path.first() == a && path.last() == b;
    lemma_path_stays(pairs, seen, path, path.len() - 1);
}

/// One of `groups` has exactly the members `members`.
pub open spec fn has_group(groups: Seq<Seq<usize>>, members: Set<usize>) -> bool {
    exists|h: int| 0 <= h < groups.len() && (#[trigger] groups[h]).to_set() == members
}

/// The two lists hold the same groups, as sets of indices, in any order.
pub open spec fn same_groups(groups1: Seq<Seq<usize>>, groups2: Seq<Seq<usize>>) -> bool {
    &&& forall|g: int| 0 <= g < groups1.len() ==> has_group(groups2, (#[trigger] groups1[g]).to_set())
    &&& forall|h: int| 0 <= h < groups2.len() ==> has_group(groups1, (#[trigger] groups2[h]).to_set())
}

/// Two lists of pairs that join the same indices.
pub open spec fn same_edges(first: Seq<Pairing>, second: Seq<Pairing>) -> bool {
    forall|a: usize, b: usize| adjacent(first, a, b) == adjacent(second, a, b)
}

proof fn lemma_path_carries_over(first: Seq<Pairing>, second: Seq<Pairing>, path: Seq<usize>)
    requires
        same_edges(first, second),
        is_path(first, path),
    ensures
        is_path(second, path),
{
    assert forall|i: int| 0 <= i < path.len() - 1 implies adjacent(
        second,
        #[trigger] path[i],
        path[i + 1],
    ) by {
        assert(adjacent(first, path[i], path[i + 1]));
    }
}

/// What is connected depends only on which indices the pairs join.
pub proof fn lemma_connected_carries_over(first: Seq<Pairing>, second: Seq<Pairing>, a: usize, b: usize)
    requires
        same_edges(first, second),
    ensures
        connected(first, a, b) == connected(second, a, b),
{
    if connected(first, a, b) {
        let path = choose|path: Seq<usize>| #[trigger]
            is_path(first, path) && path.first() == a && path.last() == b;
        lemma_path_carries_over(first, second, path);
    }
    if connected(second, a, b) {
        let path = choose|path: Seq<usize>| #[trigger]
            is_path(second, path) && path.first() == a && path.last() == b;
        lemma_path_carries_over(second, first, path);
    }
}

proof fn lemma_group_has_twin(
    first: Seq<Pairing>,
    second: Seq<Pairing>,
    groups1: Seq<Seq<usize>>,
    groups2: Seq<Seq<usize>>,
    g: int,
) -> (h: int)
    requires
        same_edges(first, second),
        is_grouping(first, groups1),
        is_grouping(second, groups2),
        0 <= g < groups1.len(),
    ensures
        0 <= h < groups2.len(),
        groups1[g].to_set() == groups2[h].to_set(),
{
    let group = groups1[g];
    let root = group[0];
    assert(is_component(first, group));
    assert(is_node(first, root));
    let other = choose|b: usize| adjacent(first, root, b);
    assert(adjacent(second, root, other));
    assert(is_node(second, root));
    let h = choose|h: int| 0 <= h < groups2.len() && (#[trigger] groups2[h]).contains(root);
    let twin = groups2[h];
    assert(is_component(second, twin));
    assert(connected(second, twin[0], root));
    assert forall|b: usize| group.to_set().contains(b) == twin.to_set().contains(b) by {
        lemma_connected_carries_over(first, second, root, b);
        if connected(second, root, b) {
            lemma_connected_transitive(second, twin[0], root, b);
        }
        if connected(second, twin[0], b) {
            lemma_connected_symmetric(second, twin[0], root);
            lemma_connected_transitive(second, root, twin[0], b);
        }
        assert(group.contains(b) == connected(first, root, b));
        assert(twin.contains(b) == connected(second, twin[0], b));
    }
    assert(group.to_set() =~= twin.to_set());
    h
}

/// The groups depend only on which indices the pairs join: two groupings of
/// pair lists with the same edges hold the same groups, as sets of indices.
pub proof fn lemma_groups_depend_on_edges(
    first: Seq<Pairing>,
    second: Seq<Pairing>,
    groups1: Seq<Seq<usize>>,
    groups2: Seq<Seq<usize>>,
)
    requires
        same_edges(first, second),
        is_grouping(first, groups1),
        is_grouping(second, groups2),
    ensures
        same_groups(groups1, groups2),
{
    assert forall|g: int| 0 <= g < groups1.len() implies has_group(
        groups2,
        (#[trigger] groups1[g]).to_set(),
    ) by {
        let h = lemma_group_has_twin(first, second, groups1, groups2, g);
        assert(groups2[h].to_set() == groups1[g].to_set());
    }
    assert forall|h: int| 0 <= h < groups2.len() implies has_group(
        groups1,
        (#[trigger] groups2[h]).to_set(),
    ) by {
        let g = lemma_group_has_twin(second, first, groups2, groups1, h);
        assert(groups1[g].to_set() == groups2[h].to_set());
    }
}

/// Feeding the same pairs in another order joins the same indices.
pub proof fn lemma_permutation_keeps_edges(first: Seq<Pairing>, second: Seq<Pairing>)
    requires
        first.to_multiset() == second.to_multiset(),
    ensures
        same_edges(first, second),
{
    first.to_multiset_ensures();
    second.to_multiset_ensures();
    assert forall|a: usize, b: usize| adjacent(first, a, b) == adjacent(second, a, b) by {
        if adjacent(first, a, b) {
            let i = choose|i: int| 0 <= i < first.len() && joins(#[trigger] first[i], a, b);
            assert(first.contains(first[i]));
            assert(second.to_multiset().count(first[i]) > 0);
            assert(second.contains(first[i]));
            let j = choose|j: int| 0 <= j < second.len() && second[j] == first[i];
            assert(joins(second[j], a, b));
        }
        if adjacent(second, a, b) {
            let i = choose|i: int| 0 <= i < second.len() && joins(#[trigger] second[i], a, b);
            assert(second.contains(second[i]));
            assert(first.to_multiset().count(second[i]) > 0);
            assert(first.contains(second[i]));
            let j = choose|j: int| 0 <= j < first.len() && first[j] == second[i];
            assert(joins(first[j], a, b));
        }
    }
}

/// A pair is the same fact whichever of its indices is named first: lists
/// that differ only in the direction of their pairs join the same indices.
pub proof fn lemma_direction_keeps_edges(first: Seq<Pairing>, second: Seq<Pairing>)
    requires
        first.len() == second.len(),
        forall|i: int|
            0 <= i < first.len() ==> joins(#[trigger] first[i], second[i].index1, second[i].index2),
    ensures
        same_edges(first, second),
{
    assert forall|a: usize, b: usize| adjacent(first, a, b) == adjacent(second, a, b) by {
        if adjacent(first, a, b) {
            let i = choose|i: int| 0 <= i < first.len() && joins(#[trigger] first[i], a, b);
            assert(joins(first[i], second[i].index1, second[i].index2));
            assert(joins(second[i], a, b));
        }
        if adjacent(second, a, b) {
            let i = choose|i: int| 0 <= i < second.len() && joins(#[trigger] second[i], a, b);
            assert(joins(first[i], second[i].index1, second[i].index2));
            assert(joins(first[i], a, b));
        }
    }
}

/// The order in which accepted pairs are fed to the grouping does not
/// matter: groupings of two orderings of the same pairs hold the same
/// groups, as sets of indices.
pub proof fn lemma_groups_ignore_pair_order(
    first: Seq<Pairing>,
    second: Seq<Pairing>,
    groups1: Seq<Seq<usize>>,
    groups2: Seq<Seq<usize>>,
)
    requires
        first.to_multiset() == second.to_multiset(),
        is_grouping(first, groups1),
        is_grouping(second, groups2),
    ensures
        same_groups(groups1, groups2),
{
    lemma_permutation_keeps_edges(first, second);
    lemma_groups_depend_on_edges(first, second, groups1, groups2);
}

/// Records `to` as a neighbour of `from`.
fn add_neighbor(graph: &mut HashMap<usize, Vec<usize>>, from: usize, to: usize)
    ensures
        final(graph)@.dom() == old(graph)@.dom().insert(from),
        final(graph)@[from]@ == neighbors_in(old(graph)@, from).push(to),
        forall|a: usize|
            a != from && #[trigger] old(graph)@.contains_key(a) ==> final(graph)@[a] == old(graph)@[a],
{
    broadcast use group_hash_axioms;

    let mut list = match graph.remove(&from) {
        Some(list) => list,
        None => Vec::new(),
    };
    list.push(to);
    graph.insert(from, list);
    assert(final(graph)@.dom() =~= old(graph)@.dom().insert(from));
}

/// Builds the adjacency list of `pairs`, each pair an edge in both directions.
fn build_graph(pairs: &Vec<Pairing>) -> (graph: HashMap<usize, Vec<usize>>)
    ensures
        graph_matches(pairs@, graph@),
{
    let mut graph: HashMap<usize, Vec<usize>> = HashMap::new();
    let mut i: usize = 0;
    assert(pairs@.take(0) =~= Seq::<Pairing>::empty());
    while i < pairs.len()
        invariant
            0 <= i <= pairs.len(),
            graph_matches(pairs@.take(i as int), graph@),
        decreases pairs.len() - i,
    {
        let node1 = pairs[i].index1;
        let node2 = pairs[i].index2;
        let ghost before = pairs@.take(i as int);
        let ghost after = pairs@.take(i + 1);
        let ghost graph0 = graph@;
        add_neighbor(&mut graph, node1, node2);
        let ghost graph1 = graph@;
        add_neighbor(&mut graph, node2, node1);
        proof {
            let graph2 = graph@;
            assert(after =~= before.push(pairs@[i as int]));
            assert forall|a: usize, b: usize| #[trigger] adjacent(after, a, b) implies graph2.contains_key(
                a,
            ) && graph2[a]@.contains(b) by {
                lemma_adjacent_push(before, pairs@[i as int], a, b);
                lemma_contains_push(neighbors_in(graph0, node1), node2, b);
                lemma_contains_push(neighbors_in(graph1, node2), node1, b);
                if adjacent(before, a, b) {
                    assert(graph0.contains_key(a) && graph0[a]@.contains(b));
                    assert(graph1.contains_key(a) && graph1[a]@.contains(b));
                }
            }
            assert forall|a: usize, b: usize|
                graph2.contains_key(a) && #[trigger] graph2[a]@.contains(b) implies adjacent(
                after,
                a,
                b,
            ) by {
                lemma_adjacent_push(before, pairs@[i as int], a, b);
                lemma_contains_push(neighbors_in(graph0, node1), node2, b);
                lemma_contains_push(neighbors_in(graph1, node2), node1, b);
                if a == node2 {
                    if neighbors_in(graph1, node2).contains(b) {
                        assert(graph1.contains_key(a) && graph1[a]@.contains(b));
                        if a == node1 {
                            if neighbors_in(graph0, node1).contains(b) {
                                assert(graph0.contains_key(a) && graph0[a]@.contains(b));
                            }
                        } else {
                            assert(graph0.contains_key(a) && graph0[a]@.contains(b));
                        }
                    }
                } else if a == node1 {
                    assert(graph2[a] == graph1[a]);
                    if neighbors_in(graph0, node1).contains(b) {
                        assert(graph0.contains_key(a) && graph0[a]@.contains(b));
                    }
                } else {
                    assert(graph1.contains_key(a));
                    assert(graph0.contains_key(a));
                    assert(graph2[a] == graph0[a]);
                    assert(graph0[a]@.contains(b));
                }
            }
            assert forall|a: usize| #[trigger] graph2.contains_key(a) implies graph2[a]@.len() > 0 by {
                if a != node2 {
                    assert(graph1.contains_key(a));
                    if a != node1 {
                        assert(graph0.contains_key(a));
                    }
                }
            }
        }
        i += 1;
    }
    assert(pairs@.take(pairs.len() as int) =~= pairs@);
    graph
}

/// Collects the connected component of `root`, marking its members as seen.
///
/// Works off an explicit stack of members whose neighbours are still to be
/// looked at, so that a long chain of pairs costs no call depth.
fn explore(
    root: usize,
    Ghost(pairs): Ghost<Seq<Pairing>>,
    graph: &HashMap<usize, Vec<usize>>,
    visited: &mut HashSet<usize>,
) -> (group: Vec<usize>)
    requires
        graph_matches(pairs, graph@),
        closed(pairs, old(visited)@),
        old(visited)@.finite(),
        old(visited)@.subset_of(graph@.dom()),
        graph@.contains_key(root),
        !old(visited)@.contains(root),
    ensures
        final(visited)@ == old(visited)@.union(group@.to_set()),
        final(visited)@.finite(),
        final(visited)@.subset_of(graph@.dom()),
        closed(pairs, final(visited)@),
        group@.len() > 0,
        group@[0] == root,
        group@.no_duplicates(),
        forall|j: int| 0 <= j < group@.len() ==> !old(visited)@.contains(#[trigger] group@[j]),
        forall|b: usize| #[trigger] group@.contains(b) <==> connected(pairs, root, b),
{
    broadcast use group_hash_axioms;

    let mut group: Vec<usize> = Vec::new();
    let mut stack: Vec<usize> = Vec::new();
    visited.insert(root);
    group.push(root);
    stack.push(root);
    proof {
        lemma_connected_reflexive(pairs, root);
        assert(group@ =~= seq![root]);
        assert forall|a: usize| group@.to_set().contains(a) <==> a == root by {
            lemma_contains_push(Seq::empty(), root, a);
            assert(group@ =~= Seq::<usize>::empty().push(root));
        }
        assert(visited@ =~= old(visited)@.union(group@.to_set()));
    }
    while stack.len() > 0
        invariant
            graph_matches(pairs, graph@),
            closed(pairs, old(visited)@),
            !old(visited)@.contains(root),
            visited@ == old(visited)@.union(group@.to_set()),
            visited@.finite(),
            visited@.subset_of(graph@.dom()),
            group@.len() > 0,
            group@[0] == root,
            group@.no_duplicates(),
            forall|j: int| 0 <= j < group@.len() ==> !old(visited)@.contains(#[trigger] group@[j]),
            forall|j: int| 0 <= j < group@.len() ==> connected(pairs, root, #[trigger] group@[j]),
            forall|j: int| 0 <= j < stack@.len() ==> group@.contains(#[trigger] stack@[j]),
            forall|a: usize, b: usize|
                visited@.contains(a) && !stack@.contains(a) && #[trigger] adjacent(pairs, a, b)
                    ==> visited@.contains(b),
        decreases graph@.dom().len() - visited@.len(), stack@.len(),
    {
        let ghost stack_before = stack@;
        let node = stack.pop().unwrap();
        proof {
            assert(stack_before =~= stack@.push(node));
            assert(group@.contains(stack_before[stack_before.len() - 1]));
            assert forall|a: usize| a != node && !stack@.contains(a) implies !stack_before.contains(
                a,
            ) by {
                lemma_contains_push(stack@, node, a);
            }
            vstd::set_lib::lemma_len_subset(visited@, graph@.dom());
        }
        let neighbors = match graph.get(&node) {
            Some(neighbors) => neighbors,
            None => {
                proof {
                    assert(group@.to_set().contains(node));
                    assert(visited@.contains(node));
                    assert(graph@.contains_key(node));
                }
                return group;
            },
        };
        let ghost visited_before = visited@;
        let mut k: usize = 0;
        while k < neighbors.len()
            invariant
                0 <= k <= neighbors.len(),
                neighbors@ == graph@[node]@,
                graph@.contains_key(node),
                graph_matches(pairs, graph@),
                closed(pairs, old(visited)@),
                !old(visited)@.contains(root),
                visited@ == old(visited)@.union(group@.to_set()),
                visited@.finite(),
                visited@.subset_of(graph@.dom()),
                visited_before.subset_of(visited@),
                visited_before.finite(),
                visited_before.len() < visited@.len() || (visited_before == visited@ && stack@
                    == stack_before.drop_last()),
                stack_before.len() > 0,
                group@.len() > 0,
                group@[0] == root,
                group@.no_duplicates(),
                group@.contains(node),
                forall|j: int| 0 <= j < group@.len() ==> !old(visited)@.contains(#[trigger] group@[j]),
                forall|j: int| 0 <= j < group@.len() ==> connected(pairs, root, #[trigger] group@[j]),
                forall|j: int| 0 <= j < stack@.len() ==> group@.contains(#[trigger] stack@[j]),
                forall|a: usize, b: usize|
                    visited@.contains(a) && a != node && !stack@.contains(a) && #[trigger] adjacent(
                        pairs,
                        a,
                        b,
                    ) ==> visited@.contains(b),
                forall|j: int| 0 <= j < k ==> visited@.contains(#[trigger] neighbors@[j]),
            decreases neighbors.len() - k,
        {
            let next = neighbors[k];
            if !visited.contains(&next) {
                let ghost group_before = group@;
                let ghost stack_now = stack@;
                let ghost visited_now = visited@;
                visited.insert(next);
                group.push(next);
                stack.push(next);
                proof {
                    assert(graph@[node]@.contains(next));
                    assert(adjacent(pairs, node, next));
                    assert(adjacent(pairs, next, node)) by {
                        lemma_adjacent_symmetric(pairs, node, next);
                    }
                    assert(graph@.contains_key(next));
                    let at = choose|j: int| 0 <= j < group_before.len() && group_before[j] == node;
                    lemma_connected_step(pairs, root, node, next);
                    assert(!group_before.contains(next)) by {
                        if group_before.contains(next) {
                            assert(group_before.to_set().contains(next));
                        }
                    }
                    assert(visited@ =~= old(visited)@.union(group@.to_set())) by {
                        assert forall|a: usize| group@.to_set().contains(a) <==> group_before.to_set().contains(
                            a,
                        ) || a == next by {
                            lemma_contains_push(group_before, next, a);
                        }
                    }
                    assert forall|j: int| 0 <= j < stack@.len() implies group@.contains(
                        #[trigger] stack@[j],
                    ) by {
                        lemma_contains_push(group_before, next, stack@[j]);
                        if j < stack_now.len() {
                            assert(group_before.contains(stack_now[j]));
                        }
                    }
                    assert forall|a: usize, b: usize|
                        visited@.contains(a) && a != node && !stack@.contains(a) && #[trigger] adjacent(
                            pairs,
                            a,
                            b,
                        ) implies visited@.contains(b) by {
                        lemma_contains_push(stack_now, next, a);
                        assert(visited_now.contains(a));
                        assert(visited_now.contains(b));
                    }
                    lemma_contains_push(group_before, next, node);
                    assert(old(visited)@.contains(next) ==> visited_now.contains(next));
                    vstd::set_lib::lemma_len_subset(visited_before, visited_now);
                    assert(visited@.len() == visited_now.len() + 1);
                    vstd::set_lib::lemma_len_subset(visited@, graph@.dom());
                }
            }
            k += 1;
        }
        proof {
            assert forall|a: usize, b: usize|
                visited@.contains(a) && !stack@.contains(a) && #[trigger] adjacent(
                    pairs,
                    a,
                    b,
                ) implies visited@.contains(b) by {
                if a == node {
                    assert(graph@[node]@.contains(b));
                    let j = choose|j: int| 0 <= j < neighbors@.len() && neighbors@[j] == b;
                    assert(visited@.contains(neighbors@[j]));
                }
            }
            vstd::set_lib::lemma_len_subset(visited@, graph@.dom());
            if visited_before == visited@ {
                assert(stack@.len() < stack_before.len());
            }
            vstd::set_lib::lemma_len_subset(visited_before, graph@.dom());
        }
    }
    proof {
        assert(closed(pairs, visited@)) by {
            assert forall|a: usize, b: usize| visited@.contains(a) && #[trigger] adjacent(
                pairs,
                a,
                b,
            ) implies visited@.contains(b) by {
                assert(!stack@.contains(a));
            }
        }
        assert forall|b: usize| #[trigger] group@.contains(b) <==> connected(pairs, root, b) by {
            if connected(pairs, root, b) {
                assert(group@.to_set().contains(root));
                lemma_closed_holds_connected(pairs, visited@, root, b);
                if old(visited)@.contains(b) {
                    lemma_connected_symmetric(pairs, root, b);
                    lemma_closed_holds_connected(pairs, old(visited)@, b, root);
                }
                assert(group@.to_set().contains(b));
            }
        }
    }
    group
}

/// Merges accepted pairs into groups of indices that match one another,
/// directly or through other members: the connected components of the
/// graph in which every pair is an edge.
///
/// The groups come in the order in which their first member first occurs as
/// the first index of a pair; only indices that occur in a pair are grouped.
pub fn make_groups(pairs: Vec<Pairing>) -> (groups: Vec<Vec<usize>>)
    ensures
        is_grouping(pairs@, group_views(groups@)),
{
    broadcast use group_hash_axioms;

    let graph = build_graph(&pairs);
    let mut visited: HashSet<usize> = HashSet::new();
    let mut groups: Vec<Vec<usize>> = Vec::new();
    let mut i: usize = 0;
    while i < pairs.len()
        invariant
            0 <= i <= pairs.len(),
            graph_matches(pairs@, graph@),
            closed(pairs@, visited@),
            visited@.finite(),
            visited@.subset_of(graph@.dom()),
            forall|k: int| 0 <= k < i ==> visited@.contains((#[trigger] pairs@[k]).index1),
            forall|g: int| 0 <= g < groups@.len() ==> is_component(pairs@, (#[trigger] groups@[g])@),
            forall|g: int, a: usize|
                0 <= g < groups@.len() && #[trigger] groups@[g]@.contains(a) ==> visited@.contains(a),
            forall|a: usize|
                visited@.contains(a) ==> exists|g: int|
                    0 <= g < groups@.len() && #[trigger] groups@[g]@.contains(a),
            forall|g: int, h: int, a: usize|
                0 <= g < h < groups@.len() && #[trigger] groups@[g]@.contains(a) ==> !#[trigger] groups@[h]@.contains(a),
        decreases pairs.len() - i,
    {
        let node = pairs[i].index1;
        if !visited.contains(&node) {
            let ghost visited_before = visited@;
            let ghost groups_before = groups@;
            proof {
                assert(joins(pairs@[i as int], node, pairs@[i as int].index2));
                assert(adjacent(pairs@, node, pairs@[i as int].index2));
            }
            let group = explore(node, Ghost(pairs@), &graph, &mut visited);
            proof {
                assert forall|j: int| 0 <= j < group@.len() implies is_node(
                    pairs@,
                    #[trigger] group@[j],
                ) by {
                    let a = group@[j];
                    assert(group@.to_set().contains(a));
                    assert(graph@.contains_key(a));
                    let b = graph@[a]@[0];
                    assert(graph@[a]@.contains(b));
                    assert(adjacent(pairs@, a, b));
                }
                assert(is_component(pairs@, group@));
                assert(group@.to_set().contains(node));
            }
            groups.push(group);
            proof {
                let last = groups_before.len() as int;
                assert forall|g: int| 0 <= g < groups@.len() implies is_component(
                    pairs@,
                    (#[trigger] groups@[g])@,
                ) by {
                    if g < last {
                        assert(groups@[g] == groups_before[g]);
                    }
                }
                assert forall|g: int, a: usize|
                    0 <= g < groups@.len() && #[trigger] groups@[g]@.contains(a) implies visited@.contains(a) by {
                    if g < last {
                        assert(groups_before[g]@.contains(a));
                    } else {
                        assert(group@.to_set().contains(a));
                    }
                }
                assert forall|a: usize| visited@.contains(a) implies exists|g: int|
                    0 <= g < groups@.len() && #[trigger] groups@[g]@.contains(a) by {
                    if visited_before.contains(a) {
                        let g = choose|g: int|
                            0 <= g < groups_before.len() && #[trigger] groups_before[g]@.contains(a);
                        assert(groups@[g]@.contains(a));
                    } else {
                        assert(group@.to_set().contains(a));
                        assert(groups@[last]@.contains(a));
                    }
                }
                assert forall|g: int, h: int, a: usize|
                    0 <= g < h < groups@.len() && #[trigger] groups@[g]@.contains(a) implies !#[trigger] groups@[h]@.contains(a) by {
                    assert(groups@[g] == groups_before[g]);
                    if h < last {
                        assert(groups@[h] == groups_before[h]);
                    } else {
                        assert(visited_before.contains(a));
                        if group@.contains(a) {
                            let j = choose|j: int| 0 <= j < group@.len() && group@[j] == a;
                            assert(!visited_before.contains(group@[j]));
                        }
                    }
                }
            }
        }
        i += 1;
    }
    proof {
        let views = group_views(groups@);
        assert forall|g: int| 0 <= g < views.len() implies is_component(pairs@, #[trigger] views[g]) by {
            assert(views[g] == groups@[g]@);
        }
        assert forall|g: int, h: int, a: usize|
            0 <= g < h < views.len() && #[trigger] views[g].contains(a) implies !#[trigger] views[h].contains(
                a,
            ) by {
            assert(views[g] == groups@[g]@);
            assert(views[h] == groups@[h]@);
        }
        assert forall|a: usize| is_node(pairs@, a) implies exists|g: int|
            0 <= g < views.len() && (#[trigger] views[g]).contains(a) by {
            let b = choose|b: usize| adjacent(pairs@, a, b);
            let k = choose|k: int| 0 <= k < pairs@.len() && joins(#[trigger] pairs@[k], a, b);
            let first = pairs@[k].index1;
            let second = pairs@[k].index2;
            assert(visited@.contains(first));
            assert(joins(pairs@[k], first, second));
            assert(adjacent(pairs@, first, second));
            assert(visited@.contains(second));
            assert(visited@.contains(a));
            let g = choose|g: int| 0 <= g < groups@.len() && #[trigger] groups@[g]@.contains(a);
            assert(views[g] == groups@[g]@);
        }
    }
    groups
}

/// One group as it is written out.
#[derive(Debug)]
pub struct GroupReport {
    /// The dense indices of the group's members.
    pub members: Vec<usize>,
    /// The paths of the members, in the same order.
    pub names: Vec<String>,
    /// The line that is printed for the group: the paths with a space
    /// between each two.
    pub line: String,
    /// The arguments with which the program is run for the group, where one
    /// is to be run: its own arguments, then the paths.
    pub arguments: Option<Vec<String>>,
}

/// The members of each report.
pub open spec fn report_members(reports: Seq<GroupReport>) -> Seq<Seq<usize>> {
    reports.map_values(|report: GroupReport| report.members@)
}

/// Every index in `pairs` is below `count`.
pub open spec fn in_range(pairs: Seq<Pairing>, count: nat) -> bool {
    forall|i: int|
        0 <= i < pairs.len() ==> (#[trigger] pairs[i]).index1 < count && pairs[i].index2 < count
}

/// `report` writes out a group whose members have the paths that `name_map`
/// gives for them, for the program `executable` where there is one.
pub open spec fn reports_group(
    report: GroupReport,
    name_map: Seq<String>,
    executable: Option<Executable>,
) -> bool {
    &&& report.names@.len() == report.members@.len()
    &&& forall|j: int|
        0 <= j < report.members@.len() ==> report.members@[j] < name_map.len() && (
        #[trigger] report.names@[j]) == name_map[report.members@[j] as int]
    &&& report.line@ == joined(name_views(report.names@), seq![' '])
    &&& match executable {
        Some(program) => report.arguments matches Some(arguments) && arguments@ == program.arguments@
            + report.names@,
        None => report.arguments is None,
    }
}

/// An index that occurs in a pair is below every bound on the pairs.
pub proof fn lemma_node_in_range(pairs: Seq<Pairing>, count: nat, a: usize)
    requires
        in_range(pairs, count),
        is_node(pairs, a),
    ensures
        a < count,
{
    let b = choose|b: usize| adjacent(pairs, a, b);
    let i = choose|i: int| 0 <= i < pairs.len() && joins(#[trigger] pairs[i], a, b);
    assert(pairs[i].index1 < count && pairs[i].index2 < count);
}

fn names_of(name_map: &Vec<String>, members: &Vec<usize>) -> (names: Vec<String>)
    requires
        forall|j: int| 0 <= j < members@.len() ==> #[trigger] members@[j] < name_map@.len(),
    ensures
        names@.len() == members@.len(),
        forall|j: int| 0 <= j < members@.len() ==> #[trigger] names@[j] == name_map@[members@[j] as int],
{
    let mut names: Vec<String> = Vec::with_capacity(members.len());
    let mut j: usize = 0;
    while j < members.len()
        invariant
            0 <= j <= members@.len(),
            names@.len() == j,
            forall|k: int| 0 <= k < members@.len() ==> #[trigger] members@[k] < name_map@.len(),
            forall|k: int| 0 <= k < j ==> #[trigger] names@[k] == name_map@[members@[k] as int],
        decreases members@.len() - j,
    {
        assert(members@[j as int] < name_map@.len());
        names.push(name_map[members[j]].clone());
        j += 1;
    }
    names
}

fn arguments_for(executable: &Option<Executable>, names: &Vec<String>) -> (arguments: Option<Vec<String>>)
    ensures
        match *executable {
            Some(program) => arguments matches Some(all) && all@ == program.arguments@ + names@,
            None => arguments is None,
        },
{
    match executable {
        Some(program) => {
            let mut all: Vec<String> = Vec::with_capacity(program.arguments.len());
            let mut i: usize = 0;
            while i < program.arguments.len()
                invariant
                    0 <= i <= program.arguments@.len(),
                    all@ == program.arguments@.take(i as int),
                decreases program.arguments@.len() - i,
            {
                all.push(program.arguments[i].clone());
                assert(program.arguments@.take(i + 1) =~= program.arguments@.take(i as int).push(
                    program.arguments@[i as int],
                ));
                i += 1;
            }
            assert(program.arguments@.take(program.arguments@.len() as int) =~= program.arguments@);
            let mut j: usize = 0;
            while j < names.len()
                invariant
                    0 <= j <= names@.len(),
                    all@ == program.arguments@ + names@.take(j as int),
                decreases names@.len() - j,
            {
                all.push(names[j].clone());
                assert(program.arguments@ + names@.take(j + 1) =~= (program.arguments@ + names@.take(
                    j as int,
                )).push(names@[j as int]));
                j += 1;
            }
            assert(names@.take(names@.len() as int) =~= names@);
            Some(all)
        },
        None => None,
    }
}

/// Groups the accepted pairs and writes each group out: the paths of its
/// members, the line to print for it, and the arguments with which the
/// program is run for it, where one is given.
///
/// `name_map` gives the path of each dense index; every index in a pair has
/// one.
pub fn make_groups_and_exec(
    name_map: &Vec<String>,
    pairings: Vec<Pairing>,
    executable: &Option<Executable>,
) -> (reports: Vec<GroupReport>)
    requires
        in_range(pairings@, name_map@.len()),
    ensures
        is_grouping(pairings@, report_members(reports@)),
        forall|g: int|
            0 <= g < reports@.len() ==> reports_group(#[trigger] reports@[g], name_map@, *executable),
{
    let ghost pairs = pairings@;
    let groups = make_groups(pairings);
    let ghost all = groups@;
    let mut reports: Vec<GroupReport> = Vec::with_capacity(groups.len());
    let mut g: usize = 0;
    while g < groups.len()
        invariant
            0 <= g <= groups@.len(),
            groups@ == all,
            in_range(pairs, name_map@.len()),
            is_grouping(pairs, group_views(all)),
            reports@.len() == g,
            forall|h: int| 0 <= h < g ==> (#[trigger] reports@[h]).members@ == all[h]@,
            forall|h: int| 0 <= h < g ==> reports_group(#[trigger] reports@[h], name_map@, *executable),
        decreases groups@.len() - g,
    {
        let members = copy_members(&groups[g]);
        proof {
            assert(group_views(all)[g as int] == all[g as int]@);
            assert(is_component(pairs, group_views(all)[g as int]));
            assert forall|j: int| 0 <= j < members@.len() implies #[trigger] members@[j]
                < name_map@.len() by {
                lemma_node_in_range(pairs, name_map@.len(), members@[j]);
            }
        }
        let names = names_of(name_map, &members);
        let line = join_names(&names);
        let arguments = arguments_for(executable, &names);
        reports.push(GroupReport { members, names, line, arguments });
        g += 1;
    }
    proof {
        assert(report_members(reports@) =~= group_views(all));
    }
    reports
}

fn copy_members(members: &Vec<usize>) -> (copy: Vec<usize>)
    ensures
        copy@ == members@,
{
    let mut copy: Vec<usize> = Vec::with_capacity(members.len());
    let mut i: usize = 0;
    while i < members.len()
        invariant
            0 <= i <= members@.len(),
            copy@ == members@.take(i as int),
        decreases members@.len() - i,
    {
        copy.push(members[i]);
        assert(members@.take(i + 1) =~= members@.take(i as int).push(members@[i as int]));
        i += 1;
    }
    assert(members@.take(members@.len() as int) =~= members@);
    copy
}

} // verus!
