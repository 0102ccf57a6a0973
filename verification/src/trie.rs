//! The trie as a mathematical object: its nodes, what inserting a fact does to
//! them, and what a query finds in them.

use crate::matching::{bind, binds, Matching};
use crate::path::{is_step, Path};
use crate::segment::Segment;
use vstd::multiset::Multiset;
use vstd::prelude::*;

verus! {

/// A node of the trie: the segment it holds, none at the root, and its
/// children by the identities of the paths that lead to them.
pub ghost struct Node {
    pub value: Option<Segment>,
    pub lchildren: Map<u64, int>,
}

impl Node {
    /// A node that holds `value` and has no children yet.
    pub open spec fn holding(value: Segment) -> Node {
        Node { value: Some(value), lchildren: Map::empty() }
    }

    /// `self` with `child` filed under `path_id`.
    pub open spec fn with_child(self, path_id: u64, child: int) -> Node {
        Node { value: self.value, lchildren: self.lchildren.insert(path_id, child) }
    }

    /// `self` with `child`, filed under `path_id`, as its only child.
    pub open spec fn with_only_child(self, path_id: u64, child: int) -> Node {
        Node { value: self.value, lchildren: Map::empty().insert(path_id, child) }
    }
}

/// The trie: its nodes in the order in which they were made, the root first.
/// A child is named by its place in this row.
pub type Trie = Seq<Node>;

/// For each index of a fact at which a branch is to be joined again, the node
/// that the path at that index is also to be filed under.
pub type Carry = Map<usize, int>;

/// Whether `node` can stand in `trie`: its children are nodes of `trie` other
/// than the root.
pub open spec fn fits(trie: Trie, node: Node) -> bool {
    forall|k: u64| #[trigger] node.lchildren.contains_key(k) ==> 1 <= node.lchildren[k] < trie.len()
}

/// The invariant of the trie. There is a root. A child was made after its
/// parent, so no walk comes back to where it was. Every node but the root
/// holds a segment. A node has finitely many children. A node is filed under
/// one identity, whoever its parents are.
pub open spec fn well_formed(trie: Trie) -> bool {
    &&& trie.len() >= 1
    &&& forall|p: int, k: u64|
        0 <= p < trie.len() && #[trigger] trie[p].lchildren.contains_key(k) ==> p
            < trie[p].lchildren[k] < trie.len()
    &&& forall|n: int| 1 <= n < trie.len() ==> (#[trigger] trie[n]).value is Some
    &&& forall|n: int| 0 <= n < trie.len() ==> (#[trigger] trie[n]).lchildren.dom().finite()
    &&& forall|p: int, k: u64, q: int, l: u64|
        0 <= p < trie.len() && 0 <= q < trie.len() && #[trigger] trie[p].lchildren.contains_key(k)
            && #[trigger] trie[q].lchildren.contains_key(l) && trie[p].lchildren[k]
            == trie[q].lchildren[l] ==> k == l
}

/// Whether every node that `carry` remembers is a node of `trie` other than the root.
pub open spec fn carried(trie: Trie, carry: Carry) -> bool {
    forall|i: usize| #[trigger] carry.contains_key(i) ==> 1 <= carry[i] < trie.len()
}

/// The trie with nothing in it but the root.
pub open spec fn empty_trie() -> Trie {
    seq![Node { value: None, lchildren: Map::empty() }]
}

/// Adds `child` to the trie as a new node and files it under `path_id` in
/// `parent` and, where there is one, in `grafted`. A unique child takes the
/// place of all the children that `parent` had.
pub open spec fn link(
    trie: Trie,
    parent: int,
    path_id: u64,
    unique: bool,
    child: Node,
    grafted: Option<int>,
) -> Trie {
    let made = trie.len() as int;
    let grown = trie.push(child);
    let joined = match grafted {
        Some(other) => grown.update(other, grown[other].with_child(path_id, made)),
        None => grown,
    };
    if unique {
        joined.update(parent, joined[parent].with_only_child(path_id, made))
    } else {
        joined.update(parent, joined[parent].with_child(path_id, made))
    }
}

/// What creating the paths of `paths` from `from` on under `parent` leaves of
/// the trie: every path that counts gets a node of its own. A leaf becomes the
/// parent of what follows; a branching point is remembered in the carry, under
/// the number of the paths after it that start with it. A path at whose
/// index, counted from `offset`, the carry remembers a node is filed under
/// that node too.
pub open spec fn create(
    trie: Trie,
    parent: int,
    paths: Seq<Path>,
    carry: Carry,
    offset: int,
    from: int,
) -> Trie
    decreases paths.len() - from,
{
    if from < 0 || from >= paths.len() {
        trie
    } else if !paths[from].counts() {
        create(trie, parent, paths, carry, offset, from + 1)
    } else {
        let path = paths[from];
        let index = (from + offset) as usize;
        let reindex = path.paths_after(paths.skip(from + 1)) as usize;
        let child = trie.len() as int;
        let grown = link(
            trie,
            parent,
            path.identity,
            path.value.unique,
            Node::holding(path.value),
            carry.get(index),
        );
        if path.value.is_leaf {
            create(grown, child, paths, carry.remove(index), offset, from + 1)
        } else {
            create(grown, parent, paths, carry.remove(index).insert(reindex, child), offset, from + 1)
        }
    }
}

/// What following the paths of `paths` from `from` on leaves of the trie. As
/// long as the paths are found under `parent`, a leaf becomes the parent of
/// what follows and a branching point is remembered in the carry. A branching
/// point that is not found gets a node of its own. At the first leaf that is
/// not found, the rest is created.
pub open spec fn follow(trie: Trie, parent: int, paths: Seq<Path>, carry: Carry, from: int) -> Trie
    decreases paths.len() - from,
{
    if from < 0 || from >= paths.len() {
        trie
    } else if !paths[from].counts() {
        follow(trie, parent, paths, carry, from + 1)
    } else {
        let path = paths[from];
        let reindex = path.paths_after(paths.skip(from + 1)) as usize;
        if trie[parent].lchildren.contains_key(path.identity) {
            let child = trie[parent].lchildren[path.identity];
            if path.value.is_leaf {
                follow(trie, child, paths, carry, from + 1)
            } else {
                follow(trie, parent, paths, carry.insert(reindex, child), from + 1)
            }
        } else if path.value.is_leaf {
            create(trie, parent, paths.skip(from), carry, from, 0)
        } else {
            let index = from as usize;
            let child = trie.len() as int;
            let grown = link(
                trie,
                parent,
                path.identity,
                path.value.unique,
                Node::holding(path.value),
                carry.get(index),
            );
            follow(grown, parent, paths, carry.remove(index).insert(reindex, child), from + 1)
        }
    }
}

/// The trie after the fact `fact` is inserted.
pub open spec fn add_fact(trie: Trie, fact: Seq<Path>) -> Trie {
    follow(trie, 0, fact, Map::empty(), 0)
}

/// The index of the first path at or after `from` that a query has to match;
/// the length of `paths` if there is none.
pub open spec fn next_leaf(paths: Seq<Path>, from: int) -> int
    decreases paths.len() - from,
{
    if from < 0 || from >= paths.len() {
        paths.len() as int
    } else if is_step(paths[from]) {
        from
    } else {
        next_leaf(paths, from + 1)
    }
}

/// The sum of the multisets that `f` gives for the keys in `keys`.
pub open spec fn sum_over<A>(keys: Set<u64>, f: spec_fn(u64) -> Multiset<A>) -> Multiset<A>
    decreases keys.len(),
    when keys.finite()
{
    if keys.len() == 0 {
        Multiset::empty()
    } else {
        let key = keys.choose();
        f(key).add(sum_over(keys.remove(key), f))
    }
}

/// The sum of the multisets that `f` gives for the keys of the row `keys`.
pub open spec fn sum_seq<A>(keys: Seq<u64>, f: spec_fn(u64) -> Multiset<A>) -> Multiset<A>
    decreases keys.len(),
{
    if keys.len() == 0 {
        Multiset::empty()
    } else {
        sum_seq(keys.drop_last(), f).add(f(keys.last()))
    }
}

/// A sum over a row is the share of any one key and the sum over the others.
pub proof fn lemma_sum_seq_remove<A>(keys: Seq<u64>, f: spec_fn(u64) -> Multiset<A>, i: int)
    requires
        0 <= i < keys.len(),
    ensures
        sum_seq(keys, f) =~= f(keys[i]).add(sum_seq(keys.remove(i), f)),
    decreases keys.len(),
{
    if i == keys.len() - 1 {
        assert(keys.remove(i) =~= keys.drop_last());
    } else {
        lemma_sum_seq_remove(keys.drop_last(), f, i);
        assert(keys.remove(i).drop_last() =~= keys.drop_last().remove(i));
        assert(keys.remove(i).last() == keys.last());
    }
}

/// A sum over a row without repetition is the sum over the set of its keys,
/// in whichever order the row holds them.
pub proof fn lemma_sum_over<A>(keys: Seq<u64>, f: spec_fn(u64) -> Multiset<A>)
    requires
        keys.no_duplicates(),
    ensures
        sum_seq(keys, f) =~= sum_over(keys.to_set(), f),
    decreases keys.len(),
{
    let set = keys.to_set();
    vstd::seq_lib::seq_to_set_is_finite(keys);
    keys.unique_seq_to_set();
    if keys.len() > 0 {
        let key = set.choose();
        assert(set.contains(key));
        let i = choose|i: int| 0 <= i < keys.len() && keys[i] == key;
        let others = keys.remove(i);
        assert(others.to_set() =~= set.remove(key)) by {
            assert forall|k: u64| others.to_set().contains(k) == set.remove(key).contains(k) by {
                if others.to_set().contains(k) {
                    let j = choose|j: int| 0 <= j < others.len() && others[j] == k;
                    if j < i {
                        assert(keys[j] == k);
                    } else {
                        assert(keys[j + 1] == k);
                    }
                }
                if set.remove(key).contains(k) {
                    let j = choose|j: int| 0 <= j < keys.len() && keys[j] == k;
                    if j < i {
                        assert(others[j] == k);
                    } else {
                        assert(others[j - 1] == k);
                    }
                }
            }
        }
        assert(others.no_duplicates());
        lemma_sum_over(others, f);
        lemma_sum_seq_remove(keys, f, i);
    }
}

/// A sum over a set holds at least the share of each of its keys.
pub proof fn lemma_sum_over_has<A>(
    keys: Set<u64>,
    f: spec_fn(u64) -> Multiset<A>,
    key: u64,
    value: A,
)
    requires
        keys.finite(),
        keys.contains(key),
    ensures
        sum_over(keys, f).count(value) >= f(key).count(value),
    decreases keys.len(),
{
    let first = keys.choose();
    if first != key {
        lemma_sum_over_has(keys.remove(first), f, key, value);
    }
}

/// The matchings that a query finds from `node` on. `head` is what is left of
/// the fact under evaluation, `rest` are the facts still to come, and
/// `matching` holds the bindings made so far. Paths that are blank or no
/// leaves are passed over. A variable without a binding takes each child of
/// `node` in turn and is bound to the segment there. A bound variable stands
/// for its binding and is then looked up, as any other leaf is, under its
/// identity. When a fact is used up, the next one starts at `root`; when all
/// are, the bindings made are one matching.
pub open spec fn query(
    trie: Trie,
    node: Node,
    root: Node,
    head: Seq<Path>,
    rest: Seq<Seq<Path>>,
    matching: Matching,
) -> Multiset<Matching>
    decreases rest.len(), head.len(), 0int,
{
    let at = next_leaf(head, 0);
    if at < 0 || at >= head.len() {
        if rest.len() > 0 {
            query(trie, root, root, rest[0], rest.drop_first(), matching)
        } else {
            Multiset::singleton(matching)
        }
    } else {
        let path = head[at];
        let tail = head.skip(at + 1);
        if path.value.is_var && !binds(matching, path.value.key()) {
            sum_over(
                node.lchildren.dom(),
                branches(trie, node, root, tail, rest, matching, path.value),
            )
        } else {
            let wanted = if path.value.is_var {
                path.substitute(matching).identity
            } else {
                path.identity
            };
            if node.lchildren.contains_key(wanted) {
                query(trie, trie[node.lchildren[wanted]], root, tail, rest, matching)
            } else {
                Multiset::empty()
            }
        }
    }
}

/// For each child of `node`, by the identity it is filed under, the matchings
/// that a query finds once the variable `var` is bound to the segment there
/// and `tail` is what is left of the fact under evaluation.
pub open spec fn branches(
    trie: Trie,
    node: Node,
    root: Node,
    tail: Seq<Path>,
    rest: Seq<Seq<Path>>,
    matching: Matching,
    var: Segment,
) -> spec_fn(u64) -> Multiset<Matching>
    decreases rest.len(), tail.len(), 1int,
{
    |key: u64|
        query(
            trie,
            trie[node.lchildren[key]],
            root,
            tail,
            rest,
            bind(matching, var, trie[node.lchildren[key]].value.unwrap()),
        )
}

/// The matchings of the facts `facts`, taken together, against the trie.
pub open spec fn ask(trie: Trie, facts: Seq<Seq<Path>>) -> Multiset<Matching> {
    if facts.len() > 0 {
        query(trie, trie[0], trie[0], facts[0], facts.drop_first(), Seq::empty())
    } else {
        Multiset::empty()
    }
}

/// Whether the trie holds a matching for the fact `fact`.
pub open spec fn known(trie: Trie, fact: Seq<Path>) -> bool {
    ask(trie, seq![fact]).len() > 0
}

/// The trie after the fact `fact` is told: a fact that is known already
/// changes nothing.
pub open spec fn tell(trie: Trie, fact: Seq<Path>) -> Trie {
    if known(trie, fact) {
        trie
    } else {
        add_fact(trie, fact)
    }
}

/// Linking a childless node that holds a segment keeps the trie well formed.
/// The new node is the last one and is filed under `path_id` in `parent`. No
/// other node but `grafted` changes, no node changes what it holds, and no
/// node that was there is filed anywhere new. Unless the new node is unique,
/// every node keeps a child under each identity under which it had one.
pub proof fn lemma_link(
    trie: Trie,
    parent: int,
    path_id: u64,
    unique: bool,
    child: Node,
    grafted: Option<int>,
)
    requires
        well_formed(trie),
        0 <= parent < trie.len(),
        grafted matches Some(other) ==> 0 <= other < trie.len(),
        child.value is Some,
        child.lchildren == Map::<u64, int>::empty(),
    ensures
        well_formed(link(trie, parent, path_id, unique, child, grafted)),
        link(trie, parent, path_id, unique, child, grafted).len() == trie.len() + 1,
        link(trie, parent, path_id, unique, child, grafted)[trie.len() as int] == child,
        link(trie, parent, path_id, unique, child, grafted)[parent].lchildren.contains_key(path_id),
        link(trie, parent, path_id, unique, child, grafted)[parent].lchildren[path_id]
            == trie.len(),
        unique ==> link(trie, parent, path_id, unique, child, grafted)[parent].lchildren.dom()
            == set![path_id],
        !unique ==> forall|x: int, k: u64|
            0 <= x < trie.len() && #[trigger] trie[x].lchildren.contains_key(k) ==> link(
                trie,
                parent,
                path_id,
                unique,
                child,
                grafted,
            )[x].lchildren.contains_key(k),
        forall|x: int|
            0 <= x < trie.len() && x != parent && grafted != Some(x) ==> (#[trigger] link(
                trie,
                parent,
                path_id,
                unique,
                child,
                grafted,
            )[x]) == trie[x],
        forall|x: int|
            0 <= x < trie.len() ==> (#[trigger] link(
                trie,
                parent,
                path_id,
                unique,
                child,
                grafted,
            )[x]).value == trie[x].value,
        forall|p: int, k: u64|
            0 <= p <= trie.len() && #[trigger] link(
                trie,
                parent,
                path_id,
                unique,
                child,
                grafted,
            )[p].lchildren.contains_key(k) ==> {
                let to = link(trie, parent, path_id, unique, child, grafted)[p].lchildren[k];
                if to == trie.len() {
                    k == path_id && (p == parent || grafted == Some(p))
                } else {
                    p < trie.len() && trie[p].lchildren.contains_key(k) && trie[p].lchildren[k]
                        == to
                }
            },
{
    let after = link(trie, parent, path_id, unique, child, grafted);
    let made = trie.len() as int;
    assert forall|p: int, k: u64|
        0 <= p < after.len() && #[trigger] after[p].lchildren.contains_key(k) implies (p
        < after[p].lchildren[k] < after.len() && (after[p].lchildren[k] == made ==> k == path_id
        && (p == parent || grafted == Some(p))) && (after[p].lchildren[k] != made ==> p
        < trie.len() && trie[p].lchildren.contains_key(k) && trie[p].lchildren[k]
        == after[p].lchildren[k])) by {
        if p < trie.len() {
            if trie[p].lchildren.contains_key(k) {
                assert(p < trie[p].lchildren[k] < trie.len());
            }
        }
    }
    if unique {
        assert(after[parent].lchildren.dom() =~= set![path_id]);
    }
}

} // verus!
