//! Growth: what an insertion keeps true of the trie, path by path.

use crate::path::{is_branch, is_step, Path};
use crate::trie::{
    add_fact, carried, create, follow, lemma_link, link, well_formed, Carry, Node, Trie,
};
use crate::walks::{faithful, holds, leaves_as_before, lemma_walk_as_before, traced, walk};
use vstd::prelude::*;

verus! {

/// What inserting the paths of `paths` from `from` on leaves of the trie,
/// whether the paths are still looked up or, from the first leaf that was
/// not found on, all created.
pub open spec fn grow(
    trie: Trie,
    parent: int,
    paths: Seq<Path>,
    carry: Carry,
    creating: bool,
    from: int,
) -> Trie
    decreases paths.len() - from,
{
    if from < 0 || from >= paths.len() {
        trie
    } else if !paths[from].counts() {
        grow(trie, parent, paths, carry, creating, from + 1)
    } else {
        let path = paths[from];
        let index = from as usize;
        let reindex = path.paths_after(paths.skip(from + 1)) as usize;
        if !creating && trie[parent].lchildren.contains_key(path.identity) {
            let child = trie[parent].lchildren[path.identity];
            if path.value.is_leaf {
                grow(trie, child, paths, carry, false, from + 1)
            } else {
                grow(trie, parent, paths, carry.insert(reindex, child), false, from + 1)
            }
        } else {
            let child = trie.len() as int;
            let grown = link(
                trie,
                parent,
                path.identity,
                path.value.unique,
                Node::holding(path.value),
                carry.get(index),
            );
            if path.value.is_leaf {
                grow(grown, child, paths, carry.remove(index), true, from + 1)
            } else {
                grow(
                    grown,
                    parent,
                    paths,
                    carry.remove(index).insert(reindex, child),
                    creating,
                    from + 1,
                )
            }
        }
    }
}

/// Creating the rest of a fact is growing the trie with every path created.
pub proof fn lemma_create_grows(
    trie: Trie,
    parent: int,
    paths: Seq<Path>,
    carry: Carry,
    offset: int,
    from: int,
)
    requires
        0 <= offset <= paths.len(),
        0 <= from,
    ensures
        create(trie, parent, paths.skip(offset), carry, offset, from) == grow(
            trie,
            parent,
            paths,
            carry,
            true,
            offset + from,
        ),
    decreases paths.len() - offset - from,
{
    let rest = paths.skip(offset);
    if from < rest.len() {
        let path = rest[from];
        assert(path == paths[offset + from]);
        assert(rest.skip(from + 1) =~= paths.skip(offset + from + 1));
        if !path.counts() {
            lemma_create_grows(trie, parent, paths, carry, offset, from + 1);
        } else {
            let index = (from + offset) as usize;
            let reindex = path.paths_after(rest.skip(from + 1)) as usize;
            let child = trie.len() as int;
            let grown = link(
                trie,
                parent,
                path.identity,
                path.value.unique,
                Node::holding(path.value),
                carry.get(index),
            );
            if path.value.is_leaf {
                lemma_create_grows(grown, child, paths, carry.remove(index), offset, from + 1);
            } else {
                lemma_create_grows(
                    grown,
                    parent,
                    paths,
                    carry.remove(index).insert(reindex, child),
                    offset,
                    from + 1,
                );
            }
        }
    }
}

/// Following a fact is growing the trie with the paths looked up first.
pub proof fn lemma_follow_grows(trie: Trie, parent: int, paths: Seq<Path>, carry: Carry, from: int)
    requires
        0 <= from,
    ensures
        follow(trie, parent, paths, carry, from) == grow(trie, parent, paths, carry, false, from),
    decreases paths.len() - from,
{
    if from < paths.len() {
        let path = paths[from];
        if !path.counts() {
            lemma_follow_grows(trie, parent, paths, carry, from + 1);
        } else {
            let reindex = path.paths_after(paths.skip(from + 1)) as usize;
            if trie[parent].lchildren.contains_key(path.identity) {
                let child = trie[parent].lchildren[path.identity];
                if path.value.is_leaf {
                    lemma_follow_grows(trie, child, paths, carry, from + 1);
                } else {
                    lemma_follow_grows(trie, parent, paths, carry.insert(reindex, child), from + 1);
                }
            } else if path.value.is_leaf {
                lemma_create_grows(trie, parent, paths, carry, from, 0);
            } else {
                let index = from as usize;
                let child = trie.len() as int;
                let grown = link(
                    trie,
                    parent,
                    path.identity,
                    path.value.unique,
                    Node::holding(path.value),
                    carry.get(index),
                );
                lemma_follow_grows(
                    grown,
                    parent,
                    paths,
                    carry.remove(index).insert(reindex, child),
                    from + 1,
                );
            }
        }
    }
}

/// Whatever is inserted, the trie stays well formed and only grows, and no
/// node comes to hold another segment.
pub proof fn lemma_grow_appends(
    trie: Trie,
    parent: int,
    fact: Seq<Path>,
    carry: Carry,
    creating: bool,
    from: int,
)
    requires
        well_formed(trie),
        0 <= parent < trie.len(),
        carried(trie, carry),
        0 <= from,
    ensures
        well_formed(grow(trie, parent, fact, carry, creating, from)),
        trie.len() <= grow(trie, parent, fact, carry, creating, from).len(),
        forall|x: int|
            0 <= x < trie.len() ==> (#[trigger] grow(trie, parent, fact, carry, creating, from)[x]).value
                == trie[x].value,
    decreases fact.len() - from,
{
    if from < fact.len() {
        let path = fact[from];
        if !path.counts() {
            lemma_grow_appends(trie, parent, fact, carry, creating, from + 1);
        } else {
            let index = from as usize;
            let reindex = path.paths_after(fact.skip(from + 1)) as usize;
            if !creating && trie[parent].lchildren.contains_key(path.identity) {
                let child = trie[parent].lchildren[path.identity];
                if path.value.is_leaf {
                    lemma_grow_appends(trie, child, fact, carry, false, from + 1);
                } else {
                    lemma_grow_appends(
                        trie,
                        parent,
                        fact,
                        carry.insert(reindex, child),
                        false,
                        from + 1,
                    );
                }
            } else {
                let child = trie.len() as int;
                let grafted = carry.get(index);
                let grown = link(
                    trie,
                    parent,
                    path.identity,
                    path.value.unique,
                    Node::holding(path.value),
                    grafted,
                );
                if carry.contains_key(index) {
                    assert(1 <= carry[index] < trie.len());
                }
                lemma_link(
                    trie,
                    parent,
                    path.identity,
                    path.value.unique,
                    Node::holding(path.value),
                    grafted,
                );
                let less = carry.remove(index);
                assert forall|i: usize| #[trigger] less.contains_key(i) implies 1 <= less[i]
                    < grown.len() by {
                    assert(carry.contains_key(i));
                }
                if path.value.is_leaf {
                    lemma_grow_appends(grown, child, fact, less, true, from + 1);
                } else {
                    let more = less.insert(reindex, child);
                    assert forall|i: usize| #[trigger] more.contains_key(i) implies 1 <= more[i]
                        < grown.len() by {
                        if more[i] != child {
                            assert(carry.contains_key(i));
                        }
                    }
                    lemma_grow_appends(grown, parent, fact, more, creating, from + 1);
                }
            }
        }
    }
}

/// Whether the leaves of the fact are filed apart from its branching points:
/// no leaf has the identity of a branching point.
pub open spec fn apart(fact: Seq<Path>) -> bool {
    forall|i: int, j: int|
        0 <= i < fact.len() && 0 <= j < fact.len() && is_step(#[trigger] fact[i]) && is_branch(
            #[trigger] fact[j],
        ) ==> fact[i].identity != fact[j].identity
}

/// Whether `key` is the identity of a branching point of the fact.
pub open spec fn branch_id(fact: Seq<Path>, key: u64) -> bool {
    exists|j: int| 0 <= j < fact.len() && is_branch(#[trigger] fact[j]) && fact[j].identity == key
}

/// Whether the carry remembers the node.
pub open spec fn is_carried(carry: Carry, node: int) -> bool {
    exists|i: usize| #[trigger] carry.contains_key(i) && carry[i] == node
}

/// Whether every node that the carry remembers is filed under the identity of
/// a branching point of the fact, wherever it is filed.
pub open spec fn branch_carried(trie: Trie, carry: Carry, fact: Seq<Path>) -> bool {
    forall|i: usize, p: int, k: u64|
        #[trigger] carry.contains_key(i) && 0 <= p < trie.len()
            && #[trigger] trie[p].lchildren.contains_key(k) && trie[p].lchildren[k] == carry[i]
            ==> branch_id(fact, k)
}

/// What must hold of a trie and of the place that an insertion has come to,
/// for the insertion to go on as the laws need it.
pub open spec fn on_course(trie: Trie, parent: int, fact: Seq<Path>, carry: Carry) -> bool {
    &&& well_formed(trie)
    &&& 0 <= parent < trie.len()
    &&& carried(trie, carry)
    &&& !is_carried(carry, parent)
    &&& branch_carried(trie, carry, fact)
    &&& apart(fact)
}

/// An insertion that is on course stays on course after a path is linked.
proof fn lemma_link_on_course(
    trie: Trie,
    parent: int,
    fact: Seq<Path>,
    carry: Carry,
    from: int,
)
    requires
        on_course(trie, parent, fact, carry),
        0 <= from < fact.len(),
        fact[from].counts(),
    ensures
        ({
            let path = fact[from];
            let index = from as usize;
            let reindex = path.paths_after(fact.skip(from + 1)) as usize;
            let child = trie.len() as int;
            let grown = link(
                trie,
                parent,
                path.identity,
                path.value.unique,
                Node::holding(path.value),
                carry.get(index),
            );
            &&& on_course(grown, child, fact, carry.remove(index))
            &&& !path.value.is_leaf ==> on_course(
                grown,
                parent,
                fact,
                carry.remove(index).insert(reindex, child),
            )
        }),
{
    let path = fact[from];
    let index = from as usize;
    let reindex = path.paths_after(fact.skip(from + 1)) as usize;
    let child = trie.len() as int;
    let grafted = carry.get(index);
    let grown = link(
        trie,
        parent,
        path.identity,
        path.value.unique,
        Node::holding(path.value),
        grafted,
    );
    if carry.contains_key(index) {
        assert(1 <= carry[index] < trie.len());
    }
    lemma_link(trie, parent, path.identity, path.value.unique, Node::holding(path.value), grafted);
    let less = carry.remove(index);
    let more = less.insert(reindex, child);
    assert forall|i: usize| #[trigger] less.contains_key(i) implies 1 <= less[i] < trie.len() by {
        assert(carry.contains_key(i));
    }
    assert(!is_carried(less, child));
    assert(branch_carried(grown, less, fact)) by {
        assert forall|i: usize, p: int, k: u64|
            #[trigger] less.contains_key(i) && 0 <= p < grown.len()
                && #[trigger] grown[p].lchildren.contains_key(k) && grown[p].lchildren[k]
                == less[i] implies branch_id(fact, k) by {
            assert(carry.contains_key(i));
            assert(trie[p].lchildren.contains_key(k));
        }
    }
    if !path.value.is_leaf {
        assert(!is_carried(more, parent)) by {
            if is_carried(more, parent) {
                let i = choose|i: usize| #[trigger] more.contains_key(i) && more[i] == parent;
                assert(carry.contains_key(i));
            }
        }
        assert(branch_carried(grown, more, fact)) by {
            assert forall|i: usize, p: int, k: u64|
                #[trigger] more.contains_key(i) && 0 <= p < grown.len()
                    && #[trigger] grown[p].lchildren.contains_key(k) && grown[p].lchildren[k]
                    == more[i] implies branch_id(fact, k) by {
                if more[i] == child {
                    assert(is_branch(fact[from]));
                } else {
                    assert(carry.contains_key(i));
                    assert(trie[p].lchildren.contains_key(k));
                }
            }
        }
    }
}

/// An insertion that is on course stays on course after a path is found.
proof fn lemma_found_on_course(trie: Trie, parent: int, fact: Seq<Path>, carry: Carry, from: int)
    requires
        on_course(trie, parent, fact, carry),
        0 <= from < fact.len(),
        fact[from].counts(),
        trie[parent].lchildren.contains_key(fact[from].identity),
    ensures
        ({
            let path = fact[from];
            let reindex = path.paths_after(fact.skip(from + 1)) as usize;
            let child = trie[parent].lchildren[path.identity];
            &&& parent < child < trie.len()
            &&& path.value.is_leaf ==> on_course(trie, child, fact, carry)
            &&& !path.value.is_leaf ==> on_course(trie, parent, fact, carry.insert(reindex, child))
        }),
{
    let path = fact[from];
    let reindex = path.paths_after(fact.skip(from + 1)) as usize;
    let child = trie[parent].lchildren[path.identity];
    if path.value.is_leaf {
        assert(!is_carried(carry, child)) by {
            if is_carried(carry, child) {
                let i = choose|i: usize| #[trigger] carry.contains_key(i) && carry[i] == child;
                assert(branch_id(fact, path.identity));
            }
        }
    } else {
        let more = carry.insert(reindex, child);
        assert(!is_carried(more, parent)) by {
            if is_carried(more, parent) {
                let i = choose|i: usize| #[trigger] more.contains_key(i) && more[i] == parent;
                assert(carry.contains_key(i));
            }
        }
        assert(branch_carried(trie, more, fact)) by {
            assert forall|i: usize, p: int, k: u64|
                #[trigger] more.contains_key(i) && 0 <= p < trie.len()
                    && #[trigger] trie[p].lchildren.contains_key(k) && trie[p].lchildren[k]
                    == more[i] implies branch_id(fact, k) by {
                if more[i] == child {
                    assert(k == path.identity);
                    assert(is_branch(fact[from]));
                } else {
                    assert(carry.contains_key(i));
                }
            }
        }
    }
}

/// Linking a path of the fact files no leaf of the fact anywhere new, unless
/// the path is that leaf.
proof fn lemma_link_leaves(trie: Trie, parent: int, fact: Seq<Path>, carry: Carry, from: int)
    requires
        on_course(trie, parent, fact, carry),
        0 <= from < fact.len(),
        is_branch(fact[from]),
    ensures
        leaves_as_before(
            trie,
            link(
                trie,
                parent,
                fact[from].identity,
                fact[from].value.unique,
                Node::holding(fact[from].value),
                carry.get(from as usize),
            ),
            fact,
        ),
{
    let path = fact[from];
    let grafted = carry.get(from as usize);
    if carry.contains_key(from as usize) {
        assert(1 <= carry[from as usize] < trie.len());
    }
    lemma_link(trie, parent, path.identity, path.value.unique, Node::holding(path.value), grafted);
}

/// An insertion that is on course leaves a well-formed trie in which the
/// leaves that were still to come lead from `parent` down to a node. The nodes
/// made before `parent` that the carry does not remember are left as they are.
pub proof fn lemma_grow(
    trie: Trie,
    parent: int,
    fact: Seq<Path>,
    carry: Carry,
    creating: bool,
    from: int,
)
    requires
        on_course(trie, parent, fact, carry),
        0 <= from <= fact.len(),
    ensures
        well_formed(grow(trie, parent, fact, carry, creating, from)),
        trie.len() <= grow(trie, parent, fact, carry, creating, from).len(),
        walk(grow(trie, parent, fact, carry, creating, from), parent, fact, from) is Some,
        forall|x: int|
            0 <= x < parent && !is_carried(carry, x) ==> (#[trigger] grow(
                trie,
                parent,
                fact,
                carry,
                creating,
                from,
            )[x]) == trie[x],
        forall|x: int|
            0 <= x < trie.len() ==> (#[trigger] grow(trie, parent, fact, carry, creating, from)[x]).value
                == trie[x].value,
    decreases fact.len() - from,
{
    let after = grow(trie, parent, fact, carry, creating, from);
    if from < fact.len() {
        let path = fact[from];
        if !path.counts() {
            lemma_grow(trie, parent, fact, carry, creating, from + 1);
        } else {
            let index = from as usize;
            let reindex = path.paths_after(fact.skip(from + 1)) as usize;
            if !creating && trie[parent].lchildren.contains_key(path.identity) {
                let child = trie[parent].lchildren[path.identity];
                if path.value.is_leaf {
                    assert(!is_carried(carry, child)) by {
                        if is_carried(carry, child) {
                            let i = choose|i: usize| #[trigger]
                                carry.contains_key(i) && carry[i] == child;
                            assert(branch_id(fact, path.identity));
                        }
                    }
                    lemma_grow(trie, child, fact, carry, false, from + 1);
                    assert(after[parent] == trie[parent]);
                } else {
                    let more = carry.insert(reindex, child);
                    assert(!is_carried(more, parent)) by {
                        if is_carried(more, parent) {
                            let i = choose|i: usize| #[trigger]
                                more.contains_key(i) && more[i] == parent;
                            assert(carry.contains_key(i));
                        }
                    }
                    assert(branch_carried(trie, more, fact)) by {
                        assert forall|i: usize, p: int, k: u64|
                            #[trigger] more.contains_key(i) && 0 <= p < trie.len()
                                && #[trigger] trie[p].lchildren.contains_key(k)
                                && trie[p].lchildren[k] == more[i] implies branch_id(fact, k) by {
                            if more[i] == child {
                                assert(k == path.identity);
                                assert(is_branch(fact[from]));
                            } else {
                                assert(carry.contains_key(i));
                            }
                        }
                    }
                    lemma_grow(trie, parent, fact, more, false, from + 1);
                    assert forall|x: int| 0 <= x < parent && !is_carried(carry, x) implies (
                    #[trigger] after[x]) == trie[x] by {
                        if is_carried(more, x) {
                            let i = choose|i: usize| #[trigger]
                                more.contains_key(i) && more[i] == x;
                            assert(carry.contains_key(i));
                        }
                    }
                }
            } else {
                let child = trie.len() as int;
                let grafted = carry.get(index);
                let grown = link(
                    trie,
                    parent,
                    path.identity,
                    path.value.unique,
                    Node::holding(path.value),
                    grafted,
                );
                if carry.contains_key(index) {
                    assert(1 <= carry[index] < trie.len());
                }
                lemma_link(
                    trie,
                    parent,
                    path.identity,
                    path.value.unique,
                    Node::holding(path.value),
                    grafted,
                );
                lemma_link_on_course(trie, parent, fact, carry, from);
                let less = carry.remove(index);
                if path.value.is_leaf {
                    lemma_grow(grown, child, fact, less, true, from + 1);
                    assert(!is_carried(less, parent)) by {
                        if is_carried(less, parent) {
                            let i = choose|i: usize| #[trigger]
                                less.contains_key(i) && less[i] == parent;
                            assert(carry.contains_key(i));
                        }
                    }
                    assert(after[parent] == grown[parent]);
                    assert forall|x: int| 0 <= x < parent && !is_carried(carry, x) implies (
                    #[trigger] after[x]) == trie[x] by {
                        if is_carried(less, x) {
                            let i = choose|i: usize| #[trigger]
                                less.contains_key(i) && less[i] == x;
                            assert(carry.contains_key(i));
                        }
                        if grafted == Some(x) {
                            assert(carry.contains_key(index));
                        }
                        assert(after[x] == grown[x]);
                    }
                } else {
                    let more = less.insert(reindex, child);
                    lemma_grow(grown, parent, fact, more, creating, from + 1);
                    assert forall|x: int| 0 <= x < parent && !is_carried(carry, x) implies (
                    #[trigger] after[x]) == trie[x] by {
                        if is_carried(more, x) {
                            let i = choose|i: usize| #[trigger]
                                more.contains_key(i) && more[i] == x;
                            assert(carry.contains_key(i));
                        }
                        if grafted == Some(x) {
                            assert(carry.contains_key(index));
                        }
                        assert(after[x] == grown[x]);
                    }
                }
            }
        }
    }
}

/// Inserting a fact whose leaves are filed apart from its branching points
/// leaves a well-formed trie in which the leaves of the fact lead from the
/// root down to a node.
pub proof fn lemma_add_fact(trie: Trie, fact: Seq<Path>)
    requires
        well_formed(trie),
        apart(fact),
    ensures
        well_formed(add_fact(trie, fact)),
        trie.len() <= add_fact(trie, fact).len(),
        walk(add_fact(trie, fact), 0, fact, 0) is Some,
{
    let carry = Map::<usize, int>::empty();
    lemma_follow_grows(trie, 0, fact, carry, 0);
    lemma_grow(trie, 0, fact, carry, false, 0);
}

/// Where an insertion that is on course has to create the last path of the
/// fact, a leaf that is unique, the paths before it lead to a node that has
/// that leaf as its only child.
pub proof fn lemma_grow_last(
    trie: Trie,
    parent: int,
    fact: Seq<Path>,
    carry: Carry,
    creating: bool,
    from: int,
)
    requires
        on_course(trie, parent, fact, carry),
        0 <= from < fact.len(),
        is_step(fact.last()),
        fact.last().value.unique,
        creating || walk(trie, parent, fact, from) is None,
    ensures
        walk(grow(trie, parent, fact, carry, creating, from), parent, fact.drop_last(), from) is Some,
        grow(trie, parent, fact, carry, creating, from)[walk(
            grow(trie, parent, fact, carry, creating, from),
            parent,
            fact.drop_last(),
            from,
        )->0].lchildren.dom() == set![fact.last().identity],
    decreases fact.len() - from,
{
    let after = grow(trie, parent, fact, carry, creating, from);
    let before = fact.drop_last();
    let last = fact.len() - 1;
    let path = fact[from];
    if from < last {
        assert(before[from] == fact[from]);
    }
    if !path.counts() {
        lemma_grow_last(trie, parent, fact, carry, creating, from + 1);
    } else {
        let index = from as usize;
        let reindex = path.paths_after(fact.skip(from + 1)) as usize;
        if !creating && trie[parent].lchildren.contains_key(path.identity) {
            let child = trie[parent].lchildren[path.identity];
            lemma_found_on_course(trie, parent, fact, carry, from);
            if path.value.is_leaf {
                lemma_grow_last(trie, child, fact, carry, false, from + 1);
                lemma_grow(trie, child, fact, carry, false, from + 1);
                assert(after[parent] == trie[parent]);
            } else {
                lemma_grow_last(trie, parent, fact, carry.insert(reindex, child), false, from + 1);
            }
        } else {
            let child = trie.len() as int;
            let grafted = carry.get(index);
            let grown = link(
                trie,
                parent,
                path.identity,
                path.value.unique,
                Node::holding(path.value),
                grafted,
            );
            if carry.contains_key(index) {
                assert(1 <= carry[index] < trie.len());
            }
            lemma_link(
                trie,
                parent,
                path.identity,
                path.value.unique,
                Node::holding(path.value),
                grafted,
            );
            lemma_link_on_course(trie, parent, fact, carry, from);
            let less = carry.remove(index);
            if path.value.is_leaf {
                if from < last {
                    lemma_grow_last(grown, child, fact, less, true, from + 1);
                    lemma_grow(grown, child, fact, less, true, from + 1);
                    assert(!is_carried(less, parent)) by {
                        if is_carried(less, parent) {
                            let i = choose|i: usize| #[trigger]
                                less.contains_key(i) && less[i] == parent;
                            assert(carry.contains_key(i));
                        }
                    }
                    assert(after[parent] == grown[parent]);
                } else {
                    assert(grow(grown, child, fact, less, true, from + 1) == grown);
                    assert(walk(after, parent, before, from) == Some(parent));
                }
            } else {
                let more = less.insert(reindex, child);
                if !creating {
                    lemma_link_leaves(trie, parent, fact, carry, from);
                    if walk(grown, parent, fact, from + 1) is Some {
                        lemma_walk_as_before(trie, grown, parent, fact, from + 1);
                    }
                }
                lemma_grow_last(grown, parent, fact, more, creating, from + 1);
            }
        }
    }
}

/// A faithful trie stays faithful to the fact when a branching point of the
/// fact is linked.
proof fn lemma_link_faithful(trie: Trie, parent: int, fact: Seq<Path>, carry: Carry, from: int)
    requires
        on_course(trie, parent, fact, carry),
        faithful(trie, fact),
        0 <= from < fact.len(),
        is_branch(fact[from]),
    ensures
        faithful(
            link(
                trie,
                parent,
                fact[from].identity,
                fact[from].value.unique,
                Node::holding(fact[from].value),
                carry.get(from as usize),
            ),
            fact,
        ),
{
    let path = fact[from];
    let grafted = carry.get(from as usize);
    let grown = link(
        trie,
        parent,
        path.identity,
        path.value.unique,
        Node::holding(path.value),
        grafted,
    );
    if carry.contains_key(from as usize) {
        assert(1 <= carry[from as usize] < trie.len());
    }
    lemma_link(trie, parent, path.identity, path.value.unique, Node::holding(path.value), grafted);
    assert forall|p: int, j: int|
        0 <= p < grown.len() && 0 <= j < fact.len() && is_step(#[trigger] fact[j])
            && #[trigger] grown[p].lchildren.contains_key(fact[j].identity) implies holds(
        grown,
        grown[p].lchildren[fact[j].identity],
        fact[j],
    ) by {
        let to = grown[p].lchildren[fact[j].identity];
        if to == trie.len() {
            assert(fact[j].identity == path.identity);
        } else {
            assert(trie[p].lchildren.contains_key(fact[j].identity));
            assert(holds(trie, to, fact[j]));
            assert(grown[to].value == trie[to].value);
        }
    }
}

/// An insertion that is on course, and that creates its paths or looks them
/// up in a trie that is faithful to the fact, leaves a trie in which the
/// leaves that were still to come are traced from `parent` down.
pub proof fn lemma_grow_traced(
    trie: Trie,
    parent: int,
    fact: Seq<Path>,
    carry: Carry,
    creating: bool,
    from: int,
)
    requires
        on_course(trie, parent, fact, carry),
        creating || faithful(trie, fact),
        0 <= from <= fact.len(),
    ensures
        traced(grow(trie, parent, fact, carry, creating, from), parent, fact, from),
    decreases fact.len() - from,
{
    let after = grow(trie, parent, fact, carry, creating, from);
    if from < fact.len() {
        let path = fact[from];
        if !path.counts() {
            lemma_grow_traced(trie, parent, fact, carry, creating, from + 1);
        } else {
            let index = from as usize;
            let reindex = path.paths_after(fact.skip(from + 1)) as usize;
            if !creating && trie[parent].lchildren.contains_key(path.identity) {
                let child = trie[parent].lchildren[path.identity];
                lemma_found_on_course(trie, parent, fact, carry, from);
                if path.value.is_leaf {
                    lemma_grow_traced(trie, child, fact, carry, false, from + 1);
                    lemma_grow(trie, child, fact, carry, false, from + 1);
                    assert(after[parent] == trie[parent]);
                    assert(holds(trie, child, path));
                    assert(after[child].value == trie[child].value);
                } else {
                    lemma_grow_traced(
                        trie,
                        parent,
                        fact,
                        carry.insert(reindex, child),
                        false,
                        from + 1,
                    );
                }
            } else {
                let child = trie.len() as int;
                let grafted = carry.get(index);
                let grown = link(
                    trie,
                    parent,
                    path.identity,
                    path.value.unique,
                    Node::holding(path.value),
                    grafted,
                );
                if carry.contains_key(index) {
                    assert(1 <= carry[index] < trie.len());
                }
                lemma_link(
                    trie,
                    parent,
                    path.identity,
                    path.value.unique,
                    Node::holding(path.value),
                    grafted,
                );
                lemma_link_on_course(trie, parent, fact, carry, from);
                let less = carry.remove(index);
                if !creating && !path.value.is_leaf {
                    lemma_link_faithful(trie, parent, fact, carry, from);
                }
                if path.value.is_leaf {
                    lemma_grow_traced(grown, child, fact, less, true, from + 1);
                    lemma_grow(grown, child, fact, less, true, from + 1);
                    assert(!is_carried(less, parent)) by {
                        if is_carried(less, parent) {
                            let i = choose|i: usize| #[trigger]
                                less.contains_key(i) && less[i] == parent;
                            assert(carry.contains_key(i));
                        }
                    }
                    assert(after[parent] == grown[parent]);
                    assert(after[child].value == grown[child].value);
                } else {
                    lemma_grow_traced(
                        grown,
                        parent,
                        fact,
                        less.insert(reindex, child),
                        creating,
                        from + 1,
                    );
                }
            }
        }
    }
}

/// Whether no path of the fact that counts is unique, so that inserting the
/// fact takes no child away.
pub open spec fn lasting(fact: Seq<Path>) -> bool {
    forall|i: int| 0 <= i < fact.len() && (#[trigger] fact[i]).counts() ==> !fact[i].value.unique
}

/// Whether every path of `paths` from `from` on is found: a leaf under the
/// node that the leaves before it lead to, a branching point beside it.
pub open spec fn all_found(trie: Trie, node: int, paths: Seq<Path>, from: int) -> bool
    decreases paths.len() - from,
{
    if from < 0 || from >= paths.len() {
        true
    } else if !paths[from].counts() {
        all_found(trie, node, paths, from + 1)
    } else {
        &&& trie[node].lchildren.contains_key(paths[from].identity)
        &&& if paths[from].value.is_leaf {
            all_found(trie, trie[node].lchildren[paths[from].identity], paths, from + 1)
        } else {
            all_found(trie, node, paths, from + 1)
        }
    }
}

/// Following a fact all of whose paths are found changes nothing.
pub proof fn lemma_found_grows_nothing(
    trie: Trie,
    parent: int,
    fact: Seq<Path>,
    carry: Carry,
    from: int,
)
    requires
        all_found(trie, parent, fact, from),
    ensures
        grow(trie, parent, fact, carry, false, from) == trie,
    decreases fact.len() - from,
{
    if 0 <= from < fact.len() {
        let path = fact[from];
        if !path.counts() {
            lemma_found_grows_nothing(trie, parent, fact, carry, from + 1);
        } else {
            let reindex = path.paths_after(fact.skip(from + 1)) as usize;
            let child = trie[parent].lchildren[path.identity];
            if path.value.is_leaf {
                lemma_found_grows_nothing(trie, child, fact, carry, from + 1);
            } else {
                lemma_found_grows_nothing(
                    trie,
                    parent,
                    fact,
                    carry.insert(reindex, child),
                    from + 1,
                );
            }
        }
    }
}

/// Inserting a fact that is lasting takes no child away: every node keeps a
/// child under each identity under which it had one.
pub proof fn lemma_grow_keeps_children(
    trie: Trie,
    parent: int,
    fact: Seq<Path>,
    carry: Carry,
    creating: bool,
    from: int,
)
    requires
        well_formed(trie),
        0 <= parent < trie.len(),
        carried(trie, carry),
        lasting(fact),
        0 <= from,
    ensures
        forall|x: int, k: u64|
            0 <= x < trie.len() && #[trigger] trie[x].lchildren.contains_key(k) ==> grow(
                trie,
                parent,
                fact,
                carry,
                creating,
                from,
            )[x].lchildren.contains_key(k),
    decreases fact.len() - from,
{
    if from < fact.len() {
        let path = fact[from];
        if !path.counts() {
            lemma_grow_keeps_children(trie, parent, fact, carry, creating, from + 1);
        } else {
            let index = from as usize;
            let reindex = path.paths_after(fact.skip(from + 1)) as usize;
            if !creating && trie[parent].lchildren.contains_key(path.identity) {
                let child = trie[parent].lchildren[path.identity];
                if path.value.is_leaf {
                    lemma_grow_keeps_children(trie, child, fact, carry, false, from + 1);
                } else {
                    lemma_grow_keeps_children(
                        trie,
                        parent,
                        fact,
                        carry.insert(reindex, child),
                        false,
                        from + 1,
                    );
                }
            } else {
                let child = trie.len() as int;
                let grafted = carry.get(index);
                let grown = link(
                    trie,
                    parent,
                    path.identity,
                    path.value.unique,
                    Node::holding(path.value),
                    grafted,
                );
                if carry.contains_key(index) {
                    assert(1 <= carry[index] < trie.len());
                }
                lemma_link(
                    trie,
                    parent,
                    path.identity,
                    path.value.unique,
                    Node::holding(path.value),
                    grafted,
                );
                let less = carry.remove(index);
                assert forall|i: usize| #[trigger] less.contains_key(i) implies 1 <= less[i]
                    < grown.len() by {
                    assert(carry.contains_key(i));
                }
                if path.value.is_leaf {
                    lemma_grow_keeps_children(grown, child, fact, less, true, from + 1);
                } else {
                    let more = less.insert(reindex, child);
                    assert forall|i: usize| #[trigger] more.contains_key(i) implies 1 <= more[i]
                        < grown.len() by {
                        if more[i] != child {
                            assert(carry.contains_key(i));
                        }
                    }
                    lemma_grow_keeps_children(grown, parent, fact, more, creating, from + 1);
                }
                let after = grow(trie, parent, fact, carry, creating, from);
                assert forall|x: int, k: u64|
                    0 <= x < trie.len() && #[trigger] trie[x].lchildren.contains_key(
                        k,
                    ) implies after[x].lchildren.contains_key(k) by {
                    assert(grown[x].lchildren.contains_key(k));
                }
            }
        }
    }
}

/// An insertion that is on course and lasting leaves a trie in which every
/// path that was still to come is found from `parent` on.
pub proof fn lemma_grow_found(
    trie: Trie,
    parent: int,
    fact: Seq<Path>,
    carry: Carry,
    creating: bool,
    from: int,
)
    requires
        on_course(trie, parent, fact, carry),
        lasting(fact),
        0 <= from <= fact.len(),
    ensures
        all_found(grow(trie, parent, fact, carry, creating, from), parent, fact, from),
    decreases fact.len() - from,
{
    let after = grow(trie, parent, fact, carry, creating, from);
    if from < fact.len() {
        let path = fact[from];
        if !path.counts() {
            lemma_grow_found(trie, parent, fact, carry, creating, from + 1);
        } else {
            let index = from as usize;
            let reindex = path.paths_after(fact.skip(from + 1)) as usize;
            if !creating && trie[parent].lchildren.contains_key(path.identity) {
                let child = trie[parent].lchildren[path.identity];
                lemma_found_on_course(trie, parent, fact, carry, from);
                if path.value.is_leaf {
                    lemma_grow_found(trie, child, fact, carry, false, from + 1);
                    lemma_grow(trie, child, fact, carry, false, from + 1);
                    assert(after[parent] == trie[parent]);
                } else {
                    let more = carry.insert(reindex, child);
                    lemma_grow_found(trie, parent, fact, more, false, from + 1);
                    lemma_grow_keeps_children(trie, parent, fact, more, false, from + 1);
                }
            } else {
                let child = trie.len() as int;
                let grafted = carry.get(index);
                let grown = link(
                    trie,
                    parent,
                    path.identity,
                    path.value.unique,
                    Node::holding(path.value),
                    grafted,
                );
                if carry.contains_key(index) {
                    assert(1 <= carry[index] < trie.len());
                }
                lemma_link(
                    trie,
                    parent,
                    path.identity,
                    path.value.unique,
                    Node::holding(path.value),
                    grafted,
                );
                lemma_link_on_course(trie, parent, fact, carry, from);
                let less = carry.remove(index);
                if path.value.is_leaf {
                    lemma_grow_found(grown, child, fact, less, true, from + 1);
                    lemma_grow(grown, child, fact, less, true, from + 1);
                    assert(!is_carried(less, parent)) by {
                        if is_carried(less, parent) {
                            let i = choose|i: usize| #[trigger]
                                less.contains_key(i) && less[i] == parent;
                            assert(carry.contains_key(i));
                        }
                    }
                    assert(after[parent] == grown[parent]);
                } else {
                    let more = less.insert(reindex, child);
                    lemma_grow_found(grown, parent, fact, more, creating, from + 1);
                    lemma_grow_keeps_children(grown, parent, fact, more, creating, from + 1);
                    assert(grown[parent].lchildren.contains_key(path.identity));
                }
            }
        }
    }
}

} // verus!
