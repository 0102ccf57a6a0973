//! Walks: where the leaves of a fact lead in a trie, and what a query finds
//! along them.

use crate::matching::{bind, binds, Binding, Matching};
use crate::path::{is_step, Path};
use crate::segment::Segment;
use crate::trie::{
    ask, branches, known, lemma_sum_over_has, next_leaf, query, sum_over, well_formed, Node, Trie,
};
use vstd::multiset::Multiset;
use vstd::prelude::*;

verus! {

/// Whether the fact is ground: no path that a query has to match is a variable.
pub open spec fn ground(fact: Seq<Path>) -> bool {
    forall|i: int| 0 <= i < fact.len() && is_step(#[trigger] fact[i]) ==> !fact[i].value.is_var
}

/// The node that the leaves of `paths` from `from` on lead to from `node`,
/// each looked up under its identity, if they all are there.
pub open spec fn walk(trie: Trie, node: int, paths: Seq<Path>, from: int) -> Option<int>
    decreases paths.len() - from,
{
    if from < 0 || from >= paths.len() {
        Some(node)
    } else if !is_step(paths[from]) {
        walk(trie, node, paths, from + 1)
    } else if trie[node].lchildren.contains_key(paths[from].identity) {
        walk(trie, trie[node].lchildren[paths[from].identity], paths, from + 1)
    } else {
        None
    }
}

/// The next leaf of what is left of a row is the next leaf of the row.
pub proof fn lemma_next_leaf_skip(paths: Seq<Path>, from: int, at: int)
    requires
        0 <= from <= paths.len(),
        0 <= at,
    ensures
        next_leaf(paths.skip(from), at) + from == next_leaf(paths, from + at),
    decreases paths.len() - from - at,
{
    let rest = paths.skip(from);
    if at < rest.len() {
        assert(rest[at] == paths[from + at]);
        if !is_step(rest[at]) {
            lemma_next_leaf_skip(paths, from, at + 1);
        }
    }
}

/// The next leaf is a leaf, and no path before it is one.
pub proof fn lemma_next_leaf(paths: Seq<Path>, from: int)
    requires
        0 <= from <= paths.len(),
    ensures
        from <= next_leaf(paths, from) <= paths.len(),
        next_leaf(paths, from) < paths.len() ==> is_step(paths[next_leaf(paths, from)]),
        forall|i: int| from <= i < next_leaf(paths, from) ==> !is_step(#[trigger] paths[i]),
    decreases paths.len() - from,
{
    if from < paths.len() && !is_step(paths[from]) {
        lemma_next_leaf(paths, from + 1);
    }
}

/// A walk passes over the paths that are no leaves.
pub proof fn lemma_walk_passes(trie: Trie, node: int, paths: Seq<Path>, from: int, to: int)
    requires
        0 <= from <= to <= paths.len(),
        forall|i: int| from <= i < to ==> !is_step(#[trigger] paths[i]),
    ensures
        walk(trie, node, paths, from) == walk(trie, node, paths, to),
    decreases to - from,
{
    if from < to {
        lemma_walk_passes(trie, node, paths, from + 1, to);
    }
}

/// A ground fact is found once, with the bindings as they were, where the
/// walk along its leaves reaches a node, and not at all where it does not.
pub proof fn lemma_ground_query(
    trie: Trie,
    node: int,
    root: Node,
    paths: Seq<Path>,
    from: int,
    matching: Matching,
)
    requires
        ground(paths),
        0 <= from <= paths.len(),
    ensures
        query(trie, trie[node], root, paths.skip(from), Seq::empty(), matching) == if walk(
            trie,
            node,
            paths,
            from,
        ) is Some {
            Multiset::singleton(matching)
        } else {
            Multiset::empty()
        },
    decreases paths.len() - from,
{
    let head = paths.skip(from);
    let at = next_leaf(head, 0);
    let next = next_leaf(paths, from);
    lemma_next_leaf_skip(paths, from, 0);
    lemma_next_leaf(paths, from);
    lemma_walk_passes(trie, node, paths, from, next);
    if next < paths.len() {
        let path = paths[next];
        assert(head[at] == path);
        assert(head.skip(at + 1) =~= paths.skip(next + 1));
        if trie[node].lchildren.contains_key(path.identity) {
            lemma_ground_query(
                trie,
                trie[node].lchildren[path.identity],
                root,
                paths,
                next + 1,
                matching,
            );
        }
    }
}

/// A ground fact is known where the walk along its leaves from the root
/// reaches a node, and then it has one matching, which binds nothing.
pub proof fn lemma_ground_ask(trie: Trie, fact: Seq<Path>)
    requires
        ground(fact),
    ensures
        known(trie, fact) == walk(trie, 0, fact, 0) is Some,
        ask(trie, seq![fact]) == if walk(trie, 0, fact, 0) is Some {
            Multiset::singleton(Seq::<Binding>::empty())
        } else {
            Multiset::empty()
        },
{
    lemma_ground_query(trie, 0, trie[0], fact, 0, Seq::empty());
    assert(fact.skip(0) =~= fact);
    assert(seq![fact].drop_first() =~= Seq::<Seq<Path>>::empty());
    assert(Multiset::singleton(Seq::<Binding>::empty()).len() == 1);
    assert(Multiset::<Matching>::empty().len() == 0);
}

/// A walk along a fact that ends in a leaf is the walk along the paths before
/// that leaf and, from where that walk ends, one step more.
pub proof fn lemma_walk_last(trie: Trie, node: int, fact: Seq<Path>, from: int)
    requires
        fact.len() > 0,
        is_step(fact.last()),
        0 <= from < fact.len(),
    ensures
        walk(trie, node, fact, from) == match walk(trie, node, fact.drop_last(), from) {
            Some(end) => if trie[end].lchildren.contains_key(fact.last().identity) {
                Some(trie[end].lchildren[fact.last().identity])
            } else {
                None
            },
            None => None,
        },
    decreases fact.len() - from,
{
    let before = fact.drop_last();
    if from < fact.len() - 1 {
        assert(before[from] == fact[from]);
        if !is_step(fact[from]) {
            lemma_walk_last(trie, node, fact, from + 1);
        } else if trie[node].lchildren.contains_key(fact[from].identity) {
            lemma_walk_last(trie, trie[node].lchildren[fact[from].identity], fact, from + 1);
        }
    } else {
        assert(walk(trie, node, before, from) == Some(node));
        if trie[node].lchildren.contains_key(fact[from].identity) {
            let child = trie[node].lchildren[fact[from].identity];
            assert(walk(trie, child, fact, from + 1) == Some(child));
        }
    }
}

/// Whether every node of `after` that is filed under the identity of a leaf
/// of the fact was filed there, under the same node, in `before`.
pub open spec fn leaves_as_before(before: Trie, after: Trie, fact: Seq<Path>) -> bool {
    forall|p: int, j: int|
        0 <= p < after.len() && 0 <= j < fact.len() && is_step(#[trigger] fact[j])
            && #[trigger] after[p].lchildren.contains_key(fact[j].identity) ==> p < before.len()
            && before[p].lchildren.contains_key(fact[j].identity)
            && before[p].lchildren[fact[j].identity] == after[p].lchildren[fact[j].identity]
}

/// A walk that finds its way in a trie finds the same way in an earlier one
/// that filed the leaves of the fact as this one does.
pub proof fn lemma_walk_as_before(
    before: Trie,
    after: Trie,
    node: int,
    fact: Seq<Path>,
    from: int,
)
    requires
        well_formed(before),
        before.len() <= after.len(),
        0 <= node < before.len(),
        0 <= from <= fact.len(),
        leaves_as_before(before, after, fact),
        walk(after, node, fact, from) is Some,
    ensures
        walk(before, node, fact, from) == walk(after, node, fact, from),
    decreases fact.len() - from,
{
    if from < fact.len() {
        if !is_step(fact[from]) {
            lemma_walk_as_before(before, after, node, fact, from + 1);
        } else {
            assert(after[node].lchildren.contains_key(fact[from].identity));
            let child = after[node].lchildren[fact[from].identity];
            assert(before[node].lchildren[fact[from].identity] == child);
            lemma_walk_as_before(before, after, child, fact, from + 1);
        }
    }
}

/// Whether the node holds the segment of the path, by its key.
pub open spec fn holds(trie: Trie, node: int, path: Path) -> bool {
    trie[node].value matches Some(held) && held.key() == path.value.key()
}

/// Whether every node of the trie that is filed under the identity of a leaf
/// of the fact holds the segment of that leaf.
pub open spec fn faithful(trie: Trie, fact: Seq<Path>) -> bool {
    forall|p: int, j: int|
        0 <= p < trie.len() && 0 <= j < fact.len() && is_step(#[trigger] fact[j])
            && #[trigger] trie[p].lchildren.contains_key(fact[j].identity) ==> holds(
            trie,
            trie[p].lchildren[fact[j].identity],
            fact[j],
        )
}

/// Whether the leaves of `paths` from `from` on lead from `node` down to a
/// node, each to a node that holds its segment.
pub open spec fn traced(trie: Trie, node: int, paths: Seq<Path>, from: int) -> bool
    decreases paths.len() - from,
{
    if from < 0 || from >= paths.len() {
        true
    } else if !is_step(paths[from]) {
        traced(trie, node, paths, from + 1)
    } else {
        &&& trie[node].lchildren.contains_key(paths[from].identity)
        &&& holds(trie, trie[node].lchildren[paths[from].identity], paths[from])
        &&& traced(trie, trie[node].lchildren[paths[from].identity], paths, from + 1)
    }
}

/// Where the leaves are traced, the walk along them reaches a node.
pub proof fn lemma_traced_walks(trie: Trie, node: int, paths: Seq<Path>, from: int)
    requires
        traced(trie, node, paths, from),
    ensures
        walk(trie, node, paths, from) is Some,
    decreases paths.len() - from,
{
    if 0 <= from < paths.len() {
        if !is_step(paths[from]) {
            lemma_traced_walks(trie, node, paths, from + 1);
        } else {
            lemma_traced_walks(trie, trie[node].lchildren[paths[from].identity], paths, from + 1);
        }
    }
}

/// In a faithful trie, a walk that reaches a node traces its leaves.
pub proof fn lemma_walk_traces(trie: Trie, node: int, paths: Seq<Path>, from: int)
    requires
        well_formed(trie),
        faithful(trie, paths),
        0 <= node < trie.len(),
        0 <= from,
        walk(trie, node, paths, from) is Some,
    ensures
        traced(trie, node, paths, from),
    decreases paths.len() - from,
{
    if from < paths.len() {
        if !is_step(paths[from]) {
            lemma_walk_traces(trie, node, paths, from + 1);
        } else {
            lemma_walk_traces(trie, trie[node].lchildren[paths[from].identity], paths, from + 1);
        }
    }
}

/// Tracing passes over the paths that are no leaves, in the fact as in what
/// is asked.
proof fn lemma_traced_passes(
    trie: Trie,
    node: int,
    fact: Seq<Path>,
    asked: Seq<Path>,
    from: int,
    to: int,
)
    requires
        0 <= from <= to < fact.len(),
        asked.len() == fact.len(),
        forall|i: int| from <= i < to ==> !is_step(#[trigger] asked[i]) && asked[i] == fact[i],
        is_step(asked[to]),
        is_step(fact[to]),
        traced(trie, node, fact, from),
    ensures
        traced(trie, node, fact, to),
        trie[node].lchildren.contains_key(fact[to].identity),
        holds(trie, trie[node].lchildren[fact[to].identity], fact[to]),
        traced(trie, trie[node].lchildren[fact[to].identity], fact, to + 1),
    decreases to - from,
{
    if from < to {
        assert(!is_step(asked[from]));
        lemma_traced_passes(trie, node, fact, asked, from + 1, to);
    }
}

/// Where the leaves of a ground fact are traced from `node` down, asking for
/// the fact with a variable in the place of one leaf finds a matching that
/// binds the variable to the segment held where that leaf led.
pub proof fn lemma_variable_query(
    trie: Trie,
    node: int,
    root: Node,
    fact: Seq<Path>,
    place: int,
    var: Path,
    from: int,
)
    requires
        well_formed(trie),
        0 <= node < trie.len(),
        ground(fact),
        0 <= from <= place < fact.len(),
        is_step(fact[place]),
        is_step(var),
        var.value.is_var,
        traced(trie, node, fact, from),
    ensures
        exists|bound: Segment|
            bound.key() == fact[place].value.key() && query(
                trie,
                trie[node],
                root,
                fact.update(place, var).skip(from),
                Seq::empty(),
                Seq::empty(),
            ).count(#[trigger] bind(Seq::empty(), var.value, bound)) > 0,
    decreases fact.len() - from,
{
    let asked = fact.update(place, var);
    let head = asked.skip(from);
    let at = next_leaf(head, 0);
    let next = next_leaf(asked, from);
    lemma_next_leaf_skip(asked, from, 0);
    lemma_next_leaf(asked, from);
    assert(next <= place) by {
        if next > place {
            assert(!is_step(asked[place]));
        }
    }
    lemma_traced_passes(trie, node, fact, asked, from, next);
    assert(head[at] == asked[next]);
    assert(head.skip(at + 1) =~= asked.skip(next + 1));
    let path = fact[next];
    let child = trie[node].lchildren[path.identity];
    let none = Seq::<Binding>::empty();
    assert(!binds(none, var.value.key()));
    if next < place {
        assert(asked[next] == path);
        lemma_variable_query(trie, child, root, fact, place, var, next + 1);
        let bound = choose|bound: Segment|
            bound.key() == fact[place].value.key() && query(
                trie,
                trie[child],
                root,
                asked.skip(next + 1),
                Seq::empty(),
                Seq::empty(),
            ).count(#[trigger] bind(Seq::empty(), var.value, bound)) > 0;
        assert(query(trie, trie[node], root, head, Seq::empty(), none).count(
            bind(Seq::empty(), var.value, bound),
        ) > 0);
    } else {
        let bound = trie[child].value.unwrap();
        let tail = asked.skip(place + 1);
        let found = bind(none, var.value, bound);
        assert(tail =~= fact.skip(place + 1));
        lemma_traced_walks(trie, child, fact, place + 1);
        lemma_ground_query(trie, child, root, fact, place + 1, found);
        let shares = branches(trie, trie[node], root, tail, Seq::empty(), none, var.value);
        assert(shares(path.identity) == Multiset::singleton(found));
        lemma_sum_over_has(trie[node].lchildren.dom(), shares, path.identity, found);
        assert(query(trie, trie[node], root, head, Seq::empty(), none) == sum_over(
            trie[node].lchildren.dom(),
            shares,
        ));
        assert(query(trie, trie[node], root, head, Seq::empty(), none).count(
            bind(Seq::empty(), var.value, bound),
        ) > 0);
    }
}

} // verus!
