//! What holds of telling and asking, whatever the trie and the fact.
//!
//! A path is filed under its identity, a hash, and two paths may come to the
//! same hash. Where a law needs the paths of a fact to be told apart by their
//! identities, it says so: the leaves of the fact are `apart` from its
//! branching points, the trie is `faithful` to the fact.

use crate::growth::{
    apart, lasting, lemma_add_fact, lemma_found_grows_nothing, lemma_grow_found, lemma_follow_grows, lemma_grow_appends, lemma_grow_last,
    lemma_grow_traced,
};
use crate::matching::{bind, Binding, Matching};
use crate::path::{is_step, Path};
use crate::segment::Segment;
use crate::trie::{add_fact, ask, known, tell, well_formed, Trie};
use crate::walks::{
    faithful, ground, lemma_ground_ask, lemma_variable_query, lemma_walk_last, lemma_walk_traces,
};
use vstd::multiset::Multiset;
use vstd::prelude::*;

verus! {

/// Inserting or telling a fact, whatever the fact, leaves the trie well
/// formed, takes no node away, and leaves in every node the segment that it
/// held.
pub proof fn law_trie_is_append_only(trie: Trie, fact: Seq<Path>)
    requires
        well_formed(trie),
    ensures
        well_formed(add_fact(trie, fact)),
        trie.len() <= add_fact(trie, fact).len(),
        forall|x: int|
            0 <= x < trie.len() ==> (#[trigger] add_fact(trie, fact)[x]).value == trie[x].value,
        well_formed(tell(trie, fact)),
        trie.len() <= tell(trie, fact).len(),
        forall|x: int| 0 <= x < trie.len() ==> (#[trigger] tell(trie, fact)[x]).value == trie[x].value,
{
    let carry = Map::<usize, int>::empty();
    lemma_follow_grows(trie, 0, fact, carry, 0);
    lemma_grow_appends(trie, 0, fact, carry, false, 0);
}

/// Once a ground fact is told, asking for it gives exactly one matching, and
/// that matching binds nothing. This is stated of the facts whose leaves are
/// filed apart from their branching points.
pub proof fn law_told_fact_is_found_once(trie: Trie, fact: Seq<Path>)
    requires
        well_formed(trie),
        ground(fact),
        apart(fact),
    ensures
        ask(tell(trie, fact), seq![fact]) == Multiset::singleton(Seq::<Binding>::empty()),
        known(tell(trie, fact), fact),
{
    lemma_ground_ask(trie, fact);
    lemma_add_fact(trie, fact);
    lemma_ground_ask(tell(trie, fact), fact);
}

/// Once a ground fact is inserted, asking for it gives exactly one matching,
/// and that matching binds nothing. This is stated of the facts whose leaves
/// are filed apart from their branching points.
pub proof fn law_added_fact_is_found_once(trie: Trie, fact: Seq<Path>)
    requires
        well_formed(trie),
        ground(fact),
        apart(fact),
    ensures
        ask(add_fact(trie, fact), seq![fact]) == Multiset::singleton(Seq::<Binding>::empty()),
        known(add_fact(trie, fact), fact),
{
    lemma_add_fact(trie, fact);
    lemma_ground_ask(add_fact(trie, fact), fact);
}

/// A fact inserted twice, with nothing asked in between, leaves the trie that
/// inserting it once leaves, node for node, so that every question has the
/// same answer and the trie the same size. This is stated of the facts whose
/// leaves are filed apart from their branching points and of whose paths none
/// is unique: a unique path takes away what was put beside it, and the second
/// insertion puts that back.
pub proof fn law_add_twice_is_add_once(trie: Trie, fact: Seq<Path>)
    requires
        well_formed(trie),
        apart(fact),
        lasting(fact),
    ensures
        add_fact(add_fact(trie, fact), fact) == add_fact(trie, fact),
{
    let none = Map::<usize, int>::empty();
    let added = add_fact(trie, fact);
    lemma_follow_grows(trie, 0, fact, none, 0);
    lemma_grow_found(trie, 0, fact, none, false, 0);
    lemma_follow_grows(added, 0, fact, none, 0);
    lemma_found_grows_nothing(added, 0, fact, none, 0);
}

/// A ground fact told twice leaves the trie that telling it once leaves, node
/// for node, so that every question has the same answer and the trie the same
/// size. This is stated of the facts whose leaves are filed apart from their
/// branching points.
pub proof fn law_tell_twice_is_tell_once(trie: Trie, fact: Seq<Path>)
    requires
        well_formed(trie),
        ground(fact),
        apart(fact),
    ensures
        tell(tell(trie, fact), fact) == tell(trie, fact),
{
    law_told_fact_is_found_once(trie, fact);
}

/// Once a ground fact is told, asking for it with a variable in the place of
/// one of its leaves gives at least one matching that binds the variable to
/// the segment that the fact has in that place. This is stated of the facts
/// whose leaves are filed apart from their branching points, and of the tries
/// that are faithful to them.
pub proof fn law_variable_finds_told_segment(trie: Trie, fact: Seq<Path>, place: int, var: Path)
    requires
        well_formed(trie),
        ground(fact),
        apart(fact),
        faithful(trie, fact),
        0 <= place < fact.len(),
        is_step(fact[place]),
        is_step(var),
        var.value.is_var,
    ensures
        exists|bound: Segment|
            bound.key() == fact[place].value.key() && ask(
                tell(trie, fact),
                seq![fact.update(place, var)],
            ).count(#[trigger] bind(Seq::empty(), var.value, bound)) > 0,
{
    let told = tell(trie, fact);
    let asked = fact.update(place, var);
    let none = Map::<usize, int>::empty();
    law_trie_is_append_only(trie, fact);
    lemma_ground_ask(trie, fact);
    if known(trie, fact) {
        lemma_walk_traces(trie, 0, fact, 0);
    } else {
        lemma_follow_grows(trie, 0, fact, none, 0);
        lemma_grow_traced(trie, 0, fact, none, false, 0);
    }
    lemma_variable_query(told, 0, told[0], fact, place, var, 0);
    assert(asked.skip(0) =~= asked);
    assert(seq![asked].drop_first() =~= Seq::<Seq<Path>>::empty());
}

/// Once a ground fact is inserted, asking for it with a variable in the place
/// of one of its leaves gives at least one matching that binds the variable to
/// the segment that the fact has in that place. This is stated of the facts
/// whose leaves are filed apart from their branching points, and of the tries
/// that are faithful to them.
pub proof fn law_variable_finds_added_segment(trie: Trie, fact: Seq<Path>, place: int, var: Path)
    requires
        well_formed(trie),
        ground(fact),
        apart(fact),
        faithful(trie, fact),
        0 <= place < fact.len(),
        is_step(fact[place]),
        is_step(var),
        var.value.is_var,
    ensures
        exists|bound: Segment|
            bound.key() == fact[place].value.key() && ask(
                add_fact(trie, fact),
                seq![fact.update(place, var)],
            ).count(#[trigger] bind(Seq::empty(), var.value, bound)) > 0,
{
    let added = add_fact(trie, fact);
    let asked = fact.update(place, var);
    let none = Map::<usize, int>::empty();
    law_trie_is_append_only(trie, fact);
    lemma_follow_grows(trie, 0, fact, none, 0);
    lemma_grow_traced(trie, 0, fact, none, false, 0);
    lemma_variable_query(added, 0, added[0], fact, place, var, 0);
    assert(asked.skip(0) =~= asked);
    assert(seq![asked].drop_first() =~= Seq::<Seq<Path>>::empty());
}

/// When two ground facts that differ in their last path only, a unique leaf,
/// are told one after the other, the first is no longer found and the second
/// is found once. This is stated of the facts whose leaves are filed apart
/// from their branching points, and of the tries that do not hold both facts
/// beforehand.
pub proof fn law_unique_leaf_evicts(trie: Trie, shared: Seq<Path>, first: Path, second: Path)
    requires
        well_formed(trie),
        ground(shared.push(first)),
        ground(shared.push(second)),
        apart(shared.push(first)),
        apart(shared.push(second)),
        is_step(first),
        is_step(second),
        first.value.unique,
        second.value.unique,
        first.identity != second.identity,
        !(known(trie, shared.push(first)) && known(trie, shared.push(second))),
    ensures
        ask(tell(tell(trie, shared.push(first)), shared.push(second)), seq![shared.push(first)])
            == Multiset::<Matching>::empty(),
        ask(tell(tell(trie, shared.push(first)), shared.push(second)), seq![shared.push(second)])
            == Multiset::singleton(Seq::<Binding>::empty()),
{
    let one = shared.push(first);
    let two = shared.push(second);
    let told = tell(trie, one);
    let both = tell(told, two);
    let none = Map::<usize, int>::empty();
    assert(one.drop_last() =~= shared);
    assert(two.drop_last() =~= shared);
    law_trie_is_append_only(trie, one);
    law_told_fact_is_found_once(told, two);
    lemma_ground_ask(trie, one);
    lemma_ground_ask(trie, two);
    lemma_ground_ask(told, two);
    lemma_ground_ask(both, one);
    if !known(trie, one) {
        lemma_follow_grows(trie, 0, one, none, 0);
        lemma_grow_last(trie, 0, one, none, false, 0);
        lemma_walk_last(told, 0, two, 0);
        assert(!known(told, two));
    }
    if !known(told, two) {
        lemma_follow_grows(told, 0, two, none, 0);
        lemma_grow_last(told, 0, two, none, false, 0);
        lemma_walk_last(both, 0, one, 0);
    }
}

} // verus!
