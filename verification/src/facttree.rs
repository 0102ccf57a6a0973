//! The fact set: a trie of facts, filled path by path and queried with variables.

use crate::growth::apart;
use crate::laws::{
    law_added_fact_is_found_once, law_told_fact_is_found_once, law_trie_is_append_only,
};
use crate::matching::{MPMatching, Matching};
use crate::path::{views, MPPath, Path};
use crate::segment::{MPSegment, Segment};
use crate::trie::{
    add_fact, ask, branches, carried, create, empty_trie, fits, follow, known, lemma_link,
    lemma_sum_over, link, next_leaf, query, sum_seq, tell, well_formed, Carry, Node, Trie,
};
use crate::walks::ground;
use std::collections::HashMap;
use vstd::multiset::Multiset;
use vstd::prelude::*;
use vstd::seq_lib::to_multiset_build;
use vstd::slice::slice_subrange;
use vstd::std_specs::hash::spec_keys_iter;
use vstd::std_specs::iter::IteratorSpec;

verus! {

/// The nodes that an insertion remembers, each under the index of the path
/// that is to be filed under it too.
pub struct CarryOver {
    nodes: HashMap<usize, usize>,
}

impl View for CarryOver {
    type V = Carry;

    closed spec fn view(&self) -> Carry {
        self.nodes@.map_values(|node: usize| node as int)
    }
}

impl CarryOver {
    /// A carry that remembers nothing.
    pub fn new() -> (carry: CarryOver)
        ensures
            carry@ == Map::<usize, int>::empty(),
    {
        let carry = CarryOver { nodes: HashMap::new() };
        assert(carry@ =~= Map::<usize, int>::empty());
        carry
    }

    /// Remembers `node` under `index`.
    pub fn add(self, index: usize, node: usize) -> (carry: CarryOver)
        ensures
            carry@ == self@.insert(index, node as int),
    {
        let mut carry = self;
        carry.nodes.insert(index, node);
        assert(carry@ =~= self@.insert(index, node as int));
        carry
    }

    /// Takes out the node remembered under `index`, if there is one.
    pub fn node(self, index: usize) -> (taken: (CarryOver, Option<usize>))
        ensures
            taken.0@ == self@.remove(index),
            taken.1 is Some == self@.contains_key(index),
            taken.1 matches Some(node) ==> node as int == self@[index],
    {
        let mut carry = self;
        let node_opt = carry.nodes.remove(&index);
        assert(carry@ =~= self@.remove(index));
        (carry, node_opt)
    }
}

/// The children of a node that has none.
pub fn mk_children() -> (children: HashMap<u64, usize>)
    ensures
        children@ == Map::<u64, usize>::empty(),
{
    HashMap::with_capacity(0)
}

/// The value of an optional segment.
pub open spec fn held(value: Option<MPSegment>) -> Option<Segment> {
    match value {
        Some(segment) => Some(segment@),
        None => None,
    }
}

/// The values of a row of matchings.
pub open spec fn answers(found: Seq<MPMatching>) -> Seq<Matching> {
    found.map_values(|m: MPMatching| m@)
}

/// The values of the rows of paths of a query.
pub open spec fn deep(all: Seq<&[MPPath]>) -> Seq<Seq<Path>> {
    all.map_values(|paths: &[MPPath]| views(paths@))
}

/// The values of the facts of a query.
pub open spec fn facts_of(all: Seq<Vec<MPPath>>) -> Seq<Seq<Path>> {
    all.map_values(|paths: Vec<MPPath>| views(paths@))
}

/// An empty row of matchings adds nothing to what a query finds.
proof fn lemma_none_found(found: Seq<MPMatching>)
    requires
        found.len() == 0,
    ensures
        forall|more: Multiset<Matching>| #[trigger] answers(found).to_multiset().add(more) == more,
{
    answers(found).to_multiset_ensures();
    assert forall|more: Multiset<Matching>| #[trigger]
        answers(found).to_multiset().add(more) == more by {
        assert(answers(found).to_multiset().add(more) =~= more);
    }
}

/// A row that holds `given` in front holds the matchings of `given` and
/// those of what comes after it.
proof fn lemma_added(given: Seq<MPMatching>, found: Seq<MPMatching>)
    requires
        given.len() <= found.len(),
        found.take(given.len() as int) == given,
    ensures
        answers(found).to_multiset() == answers(given).to_multiset().add(
            answers(found.skip(given.len() as int)).to_multiset(),
        ),
{
    let added = found.skip(given.len() as int);
    assert(found =~= given + added);
    assert(answers(found) =~= answers(given) + answers(added));
    vstd::seq_lib::lemma_multiset_commutative(answers(given), answers(added));
}

/// Nothing comes after a row in the row itself.
proof fn lemma_nothing_added(given: Seq<MPMatching>)
    ensures
        answers(given.skip(given.len() as int)).to_multiset() == Multiset::<Matching>::empty(),
{
    let added = answers(given.skip(given.len() as int));
    assert(added.len() == 0);
    added.to_multiset_ensures();
    assert(added.to_multiset() =~= Multiset::<Matching>::empty());
}

/// Where a row that holds `given` in front is added to, the new row holds
/// `given` in front, and after it what came after it before and what was added.
proof fn lemma_added_after(given: Seq<MPMatching>, so_far: Seq<MPMatching>, found: Seq<MPMatching>)
    requires
        given.len() <= so_far.len() <= found.len(),
        so_far.take(given.len() as int) == given,
        found.take(so_far.len() as int) == so_far,
    ensures
        found.take(given.len() as int) == given,
        answers(found.skip(given.len() as int)).to_multiset() == answers(
            so_far.skip(given.len() as int),
        ).to_multiset().add(answers(found.skip(so_far.len() as int)).to_multiset()),
{
    let old_part = so_far.skip(given.len() as int);
    let new_part = found.skip(so_far.len() as int);
    assert(found.take(given.len() as int) =~= so_far.take(given.len() as int)) by {
        assert forall|i: int| 0 <= i < given.len() implies found.take(given.len() as int)[i]
            == so_far.take(given.len() as int)[i] by {
            assert(found.take(so_far.len() as int)[i] == so_far[i]);
        }
    }
    assert(found.skip(given.len() as int) =~= old_part + new_part) by {
        assert forall|i: int| 0 <= i < old_part.len() implies found.skip(given.len() as int)[i]
            == old_part[i] by {
            assert(found.take(so_far.len() as int)[i + given.len()] == so_far[i + given.len()]);
        }
    }
    assert(answers(old_part + new_part) =~= answers(old_part) + answers(new_part));
    vstd::seq_lib::lemma_multiset_commutative(answers(old_part), answers(new_part));
}

/// The node at which the next fact of a query starts.
pub open spec fn start_of(root: Option<&FSNode>, node: FSNode) -> Node {
    match root {
        Some(start) => start@,
        None => node@,
    }
}

/// A node of the trie.
#[derive(Debug)]
pub struct FSNode {
    lchildren: HashMap<u64, usize>,
    value: Option<MPSegment>,
}

impl View for FSNode {
    type V = Node;

    closed spec fn view(&self) -> Node {
        Node {
            value: held(self.value),
            lchildren: self.lchildren@.map_values(|child: usize| child as int),
        }
    }
}

impl FSNode {
    /// A node that holds `value` and has no children.
    pub fn new(value: Option<MPSegment>) -> (node: FSNode)
        ensures
            node@ == (Node { value: held(value), lchildren: Map::empty() }),
    {
        let node = FSNode { lchildren: mk_children(), value };
        assert(node@.lchildren =~= Map::<u64, int>::empty());
        node
    }

    /// The segment that the node holds.
    pub fn value(&self) -> (value: Option<&MPSegment>)
        ensures
            value is Some == self@.value is Some,
            value matches Some(segment) ==> segment@ == self@.value->0,
    {
        self.value.as_ref()
    }

    /// The child filed under `path_id`.
    pub fn get_lchild(&self, path_id: u64) -> (child: Option<usize>)
        ensures
            child is Some == self@.lchildren.contains_key(path_id),
            child matches Some(c) ==> c as int == self@.lchildren[path_id],
    {
        match self.lchildren.get(&path_id) {
            None => None,
            Some(child_ref) => Some(*child_ref),
        }
    }

    /// The child filed under the identity of `path`.
    pub fn get_lchild_r(&self, path: &MPPath) -> (child: Option<usize>)
        ensures
            child is Some == self@.lchildren.contains_key(path@.identity),
            child matches Some(c) ==> c as int == self@.lchildren[path@.identity],
    {
        self.get_lchild(path.identity)
    }

    /// The identities under which the node has children, each once, in no
    /// particular order.
    pub fn child_keys(&self) -> (keys: Vec<u64>)
        ensures
            keys@.no_duplicates(),
            keys@.to_set() == self@.lchildren.dom(),
    {
        let mut keys: Vec<u64> = Vec::new();
        for key in it: self.lchildren.keys()
            invariant
                keys@ == it.seq().unref().take(it.index()),
        {
            keys.push(*key);
        }
        proof {
            let ghost all = spec_keys_iter(&self.lchildren).remaining();
            assert(keys@ =~= all.unref());
            assert(all.unref().to_set() == self.lchildren@.dom());
            assert(self@.lchildren.dom() =~= self.lchildren@.dom());
        }
        keys
    }

    /// Evaluates a query from this node on and adds the matchings it finds to
    /// `resp`. The first row of `all_all_paths` is what is left of the fact
    /// under evaluation, the other rows are the facts still to come;
    /// `matching` holds the bindings made so far. When a fact is used up the
    /// next one starts at `root`, or at this node where `root` is `None`. What
    /// was in `resp` stays in front, as it was; the matchings found come after
    /// it, in no particular order.
    pub fn query_paths(
        &self,
        trie: &FactSet,
        all_all_paths: &[&[MPPath]],
        matching: MPMatching,
        resp: Vec<MPMatching>,
        root: Option<&FSNode>,
    ) -> (found: Vec<MPMatching>)
        requires
            well_formed(trie@),
            fits(trie@, self@),
            root matches Some(start) ==> fits(trie@, start@),
            all_all_paths@.len() > 0,
        ensures
            found@.len() >= resp@.len(),
            found@.take(resp@.len() as int) == resp@,
            answers(found@.skip(resp@.len() as int)).to_multiset() == query(
                trie@,
                self@,
                start_of(root, *self),
                views(all_all_paths@[0]@),
                deep(all_all_paths@).drop_first(),
                matching@,
            ),
            answers(found@).to_multiset() == answers(resp@).to_multiset().add(
                query(
                    trie@,
                    self@,
                    start_of(root, *self),
                    views(all_all_paths@[0]@),
                    deep(all_all_paths@).drop_first(),
                    matching@,
                ),
            ),
        decreases all_all_paths@.len(), all_all_paths@[0]@.len(),
    {
        let rroot: &FSNode = match root {
            Some(start) => start,
            None => self,
        };
        let all_paths: &[MPPath] = all_all_paths[0];
        let new_all_all: &[&[MPPath]] = slice_subrange(all_all_paths, 1, all_all_paths.len());
        let ghost head = views(all_paths@);
        let ghost rest = deep(all_all_paths@).drop_first();
        assert(deep(new_all_all@) =~= rest);
        let mut at: usize = 0;
        let mut finished = false;
        while at < all_paths.len() && !finished
            invariant
                at <= all_paths@.len(),
                head == views(all_paths@),
                next_leaf(head, 0) == next_leaf(head, at as int),
                finished ==> at < all_paths@.len() && next_leaf(head, 0) == at,
            decreases all_paths@.len() - at, if finished { 0int } else { 1int },
        {
            let path = &all_paths[at];
            assert(head[at as int] == path@);
            if !path.value.is_empty && path.value.is_leaf {
                finished = true;
            } else {
                at += 1;
            }
        }
        if at < all_paths.len() {
            let path = &all_paths[at];
            assert(head[at as int] == path@);
            let paths = slice_subrange(all_paths, at + 1, all_paths.len());
            let ghost tail = head.skip(at + 1);
            assert(views(paths@) =~= tail);
            let mut npaths: Vec<&[MPPath]> = Vec::new();
            npaths.push(paths);
            let mut i: usize = 0;
            while i < new_all_all.len()
                invariant
                    i <= new_all_all@.len(),
                    npaths@ =~= seq![paths] + new_all_all@.take(i as int),
                decreases new_all_all@.len() - i,
            {
                npaths.push(new_all_all[i]);
                i += 1;
            }
            proof {
                assert(new_all_all@.take(i as int) =~= new_all_all@);
                assert(npaths@[0] == paths);
                assert(deep(npaths@).drop_first() =~= rest);
            }
            if path.value.is_var && !matching.contains_key(&path.value) {
                let keys = self.child_keys();
                let ghost share = branches(trie@, self@, rroot@, tail, rest, matching@, path@.value);
                let ghost given = resp@;
                let mut resp = resp;
                let mut k: usize = 0;
                proof {
                    assert(resp@.take(given.len() as int) =~= given);
                    lemma_nothing_added(resp@);
                }
                while k < keys.len()
                    invariant
                        k <= keys@.len(),
                        well_formed(trie@),
                        fits(trie@, self@),
                        fits(trie@, rroot@),
                        keys@.to_set() == self@.lchildren.dom(),
                        npaths@.len() == all_all_paths@.len(),
                        npaths@.len() > 0,
                        npaths@[0]@.len() < all_all_paths@[0]@.len(),
                        views(npaths@[0]@) == tail,
                        deep(npaths@).drop_first() == rest,
                        share == branches(trie@, self@, rroot@, tail, rest, matching@, path@.value),
                        resp@.len() >= given.len(),
                        resp@.take(given.len() as int) == given,
                        answers(resp@.skip(given.len() as int)).to_multiset() == sum_seq(
                            keys@.take(k as int),
                            share,
                        ),
                    decreases keys@.len() - k,
                {
                    let key = keys[k];
                    assert(keys@.to_set().contains(key));
                    let lchild = self.get_lchild(key).unwrap();
                    let lchild_node = trie.node(lchild);
                    let mut new_matching = matching.clone();
                    new_matching.insert(path.value.clone(), lchild_node.value().unwrap().clone());
                    let ghost so_far = resp@;
                    resp = lchild_node.query_paths(
                        trie,
                        npaths.as_slice(),
                        new_matching,
                        resp,
                        Some(rroot),
                    );
                    proof {
                        let next = keys@.take(k + 1);
                        assert(next.drop_last() =~= keys@.take(k as int));
                        assert(next.last() == key);
                        lemma_added_after(given, so_far, resp@);
                    }
                    k += 1;
                }
                proof {
                    assert(keys@.take(k as int) =~= keys@);
                    lemma_sum_over(keys@, share);
                    lemma_added(given, resp@);
                }
                return resp;
            }
            let next = if path.value.is_var {
                let new_path = path.substitute(&matching);
                self.get_lchild_r(&new_path)
            } else {
                self.get_lchild_r(path)
            };
            match next {
                Some(next_node) => trie.node(next_node).query_paths(
                    trie,
                    npaths.as_slice(),
                    matching,
                    resp,
                    Some(rroot),
                ),
                None => {
                    proof {
                        assert(resp@.take(resp@.len() as int) =~= resp@);
                        lemma_nothing_added(resp@);
                        lemma_added(resp@, resp@);
                    }
                    resp
                },
            }
        } else if new_all_all.len() > 0 {
            assert(deep(new_all_all@).drop_first() =~= rest.drop_first());
            assert(views(new_all_all@[0]@) == rest[0]);
            rroot.query_paths(trie, new_all_all, matching, resp, None)
        } else {
            let mut resp = resp;
            let ghost given = resp@;
            resp.push(matching);
            proof {
                let added = resp@.skip(given.len() as int);
                assert(resp@.take(given.len() as int) =~= given);
                assert(answers(added) =~= Seq::<Matching>::empty().push(matching@));
                to_multiset_build(Seq::<Matching>::empty(), matching@);
                Seq::<Matching>::empty().to_multiset_ensures();
                assert(Seq::<Matching>::empty().to_multiset() =~= Multiset::<Matching>::empty());
                assert(Multiset::<Matching>::empty().insert(matching@) =~= Multiset::singleton(
                    matching@,
                ));
                assert(answers(added).to_multiset() =~= Multiset::singleton(matching@));
                lemma_added(given, resp@);
            }
            resp
        }
    }

    fn set_child(&mut self, path_id: u64, child: usize)
        ensures
            final(self)@ == old(self)@.with_child(path_id, child as int),
    {
        self.lchildren.insert(path_id, child);
        assert(self@.lchildren =~= old(self)@.lchildren.insert(path_id, child as int));
    }

    fn set_only_child(&mut self, path_id: u64, child: usize)
        ensures
            final(self)@ == old(self)@.with_only_child(path_id, child as int),
    {
        self.lchildren.clear();
        self.lchildren.insert(path_id, child);
        assert(self@.lchildren =~= Map::<u64, int>::empty().insert(path_id, child as int));
    }
}

/// A set of facts, kept as one trie.
pub struct FactSet {
    nodes: Vec<FSNode>,
}

impl View for FactSet {
    type V = Trie;

    closed spec fn view(&self) -> Trie {
        self.nodes@.map_values(|node: FSNode| node@)
    }
}

impl FactSet {
    /// The set that holds no fact.
    pub fn new() -> (facts: FactSet)
        ensures
            facts@ == empty_trie(),
            well_formed(facts@),
    {
        let mut nodes: Vec<FSNode> = Vec::new();
        nodes.push(FSNode::new(None));
        let facts = FactSet { nodes };
        assert(facts@ =~= empty_trie());
        facts
    }

    /// The number of nodes, the root among them.
    pub fn len(&self) -> (n: usize)
        ensures
            n == self@.len(),
    {
        self.nodes.len()
    }

    /// The node with the number `id`.
    pub fn node(&self, id: usize) -> (node: &FSNode)
        requires
            id < self@.len(),
        ensures
            node@ == self@[id as int],
    {
        &self.nodes[id]
    }

    /// The root of the trie.
    pub fn root(&self) -> (node: &FSNode)
        requires
            well_formed(self@),
        ensures
            node@ == self@[0],
    {
        &self.nodes[0]
    }

    /// The matchings of the fact `fact` against the trie, in no particular
    /// order, and the fact itself.
    pub fn ask_fact(&self, fact: Vec<MPPath>) -> (answer: (Vec<MPMatching>, Vec<MPPath>))
        requires
            well_formed(self@),
        ensures
            answers(answer.0@).to_multiset() == ask(self@, seq![views(fact@)]),
            answer.1 == fact,
    {
        let response: Vec<MPMatching> = Vec::new();
        let matching = MPMatching::new();
        let mut npaths: Vec<&[MPPath]> = Vec::new();
        npaths.push(fact.as_slice());
        let root = self.root();
        proof {
            assert(deep(npaths@).drop_first() =~= seq![views(fact@)].drop_first());
            lemma_none_found(response@);
        }
        let response = root.query_paths(self, npaths.as_slice(), matching, response, Some(root));
        (response, fact)
    }

    /// Whether the trie holds a matching for the fact `fact`, and the fact itself.
    pub fn ask_fact_bool(&self, fact: Vec<MPPath>) -> (answer: (bool, Vec<MPPath>))
        requires
            well_formed(self@),
        ensures
            answer.0 == known(self@, views(fact@)),
            answer.1 == fact,
    {
        let (resp, fact) = self.ask_fact(fact);
        proof {
            answers(resp@).to_multiset_ensures();
        }
        (resp.len() > 0, fact)
    }

    /// The matchings of the facts `facts`, taken together, against the trie, in
    /// no particular order. A variable bound in one fact stands for its binding
    /// in those that follow.
    pub fn ask_facts(&self, facts: Vec<Vec<MPPath>>) -> (response: Vec<MPMatching>)
        requires
            well_formed(self@),
            facts@.len() > 0,
        ensures
            answers(response@).to_multiset() == ask(self@, facts_of(facts@)),
    {
        let response: Vec<MPMatching> = Vec::new();
        let matching = MPMatching::new();
        let mut paths: Vec<&[MPPath]> = Vec::new();
        let mut i: usize = 0;
        while i < facts.len()
            invariant
                i <= facts@.len(),
                paths@.len() == i,
                deep(paths@) =~= facts_of(facts@).take(i as int),
            decreases facts@.len() - i,
        {
            paths.push(facts[i].as_slice());
            i += 1;
        }
        let root = self.root();
        proof {
            assert(facts_of(facts@).take(i as int) =~= facts_of(facts@));
            assert(views(paths@[0]@) == facts_of(facts@)[0]);
            lemma_none_found(response@);
        }
        root.query_paths(self, paths.as_slice(), matching, response, Some(root))
    }

    /// Tells the fact `fact`: inserts it unless the trie holds a matching for
    /// it already. Says whether the fact was new. No node is taken away, and
    /// no node comes to hold another segment. A ground fact whose leaves are
    /// filed apart from its branching points is known afterwards.
    pub fn tell(&mut self, fact: Vec<MPPath>) -> (added: bool)
        requires
            well_formed(old(self)@),
        ensures
            final(self)@ == tell(old(self)@, views(fact@)),
            added == !known(old(self)@, views(fact@)),
            well_formed(final(self)@),
            ground(views(fact@)) && apart(views(fact@)) ==> known(final(self)@, views(fact@)),
            old(self)@.len() <= final(self)@.len(),
            forall|n: int|
                0 <= n < old(self)@.len() ==> (#[trigger] final(self)@[n]).value == old(self)@[n].value,
    {
        proof {
            law_trie_is_append_only(self@, views(fact@));
            if ground(views(fact@)) && apart(views(fact@)) {
                law_told_fact_is_found_once(self@, views(fact@));
            }
        }
        let (exists, paths) = self.ask_fact_bool(fact);
        if exists {
            false
        } else {
            self.add_fact(paths);
            true
        }
    }

    /// Adds `child` to the trie and files it under `path_id` in `parent` and in
    /// the node that `carry` remembers under `index`, if there is one. Hands
    /// back the number of the new node and the carry without that node.
    pub fn intern_lchild(
        &mut self,
        parent: usize,
        path_id: u64,
        unique_child: bool,
        child: FSNode,
        carry: CarryOver,
        index: usize,
    ) -> (made: (usize, CarryOver))
        requires
            well_formed(old(self)@),
            parent < old(self)@.len(),
            carried(old(self)@, carry@),
            child@.value is Some,
            child@.lchildren == Map::<u64, int>::empty(),
        ensures
            final(self)@ == link(
                old(self)@,
                parent as int,
                path_id,
                unique_child,
                child@,
                carry@.get(index),
            ),
            made.0 == old(self)@.len(),
            made.1@ == carry@.remove(index),
            well_formed(final(self)@),
            carried(final(self)@, made.1@),
    {
        let ghost before = self@;
        let ghost grafted = carry@.get(index);
        let child_ref = self.nodes.len();
        self.nodes.push(child);
        assert(self@ =~= before.push(child@));
        let (carry, more) = carry.node(index);
        let ghost grown = self@;
        match more {
            Some(other) => {
                self.nodes[other].set_child(path_id, child_ref);
                assert(self@ =~= grown.update(
                    other as int,
                    grown[other as int].with_child(path_id, child_ref as int),
                ));
            },
            None => {},
        }
        let ghost joined = self@;
        if unique_child {
            self.nodes[parent].set_only_child(path_id, child_ref);
            assert(self@ =~= joined.update(
                parent as int,
                joined[parent as int].with_only_child(path_id, child_ref as int),
            ));
        } else {
            self.nodes[parent].set_child(path_id, child_ref);
            assert(self@ =~= joined.update(
                parent as int,
                joined[parent as int].with_child(path_id, child_ref as int),
            ));
        }
        proof {
            lemma_link(before, parent as int, path_id, unique_child, child@, grafted);
        }
        (child_ref, carry)
    }

    /// Creates the paths of `paths` under `parent`, one new node for each path
    /// that counts. `offset` is the index in its fact of the first of them.
    pub fn create_paths(&mut self, parent: usize, paths: Vec<MPPath>, carry: CarryOver, offset: usize)
        requires
            well_formed(old(self)@),
            parent < old(self)@.len(),
            carried(old(self)@, carry@),
            offset + paths@.len() <= usize::MAX,
        ensures
            final(self)@ == create(old(self)@, parent as int, views(paths@), carry@, offset as int, 0),
            well_formed(final(self)@),
    {
        let ghost all = views(paths@);
        let ghost goal = create(self@, parent as int, all, carry@, offset as int, 0);
        let mut parent = parent;
        let mut carry = carry;
        let mut path_index: usize = 0;
        while path_index < paths.len()
            invariant
                path_index <= paths@.len(),
                all == views(paths@),
                offset + paths@.len() <= usize::MAX,
                well_formed(self@),
                parent < self@.len(),
                carried(self@, carry@),
                goal == create(self@, parent as int, all, carry@, offset as int, path_index as int),
            decreases paths@.len() - path_index,
        {
            let path = &paths[path_index];
            assert(all[path_index as int] == path@);
            if !path.value.is_empty {
                let path_id = path.identity;
                let unique_child = path.value.unique;
                let is_leaf = path.value.is_leaf;
                let rest = slice_subrange(paths.as_slice(), path_index + 1, paths.len());
                assert(views(rest@) =~= all.skip(path_index + 1));
                let reindex = path.paths_after(rest);
                let child_node = FSNode::new(Some(path.value.clone()));
                let real_index = path_index + offset;
                let (child, new_carry) = self.intern_lchild(
                    parent,
                    path_id,
                    unique_child,
                    child_node,
                    carry,
                    real_index,
                );
                if !is_leaf {
                    carry = new_carry.add(reindex, child);
                } else {
                    carry = new_carry;
                    parent = child;
                }
            }
            path_index += 1;
        }
    }

    /// Follows the paths of `paths` from `parent` down as far as the trie holds
    /// them, and creates what is left.
    pub fn follow_and_create_paths(&mut self, parent: usize, paths: Vec<MPPath>, carry: CarryOver)
        requires
            well_formed(old(self)@),
            parent < old(self)@.len(),
            carried(old(self)@, carry@),
        ensures
            final(self)@ == follow(old(self)@, parent as int, views(paths@), carry@, 0),
            well_formed(final(self)@),
    {
        let ghost all = views(paths@);
        let ghost goal = follow(self@, parent as int, all, carry@, 0);
        let mut paths = paths;
        let mut parent = parent;
        let mut carry = carry;
        let mut path_index: usize = 0;
        while path_index < paths.len()
            invariant_except_break
                path_index <= paths@.len(),
                all == views(paths@),
                well_formed(self@),
                parent < self@.len(),
                carried(self@, carry@),
                goal == follow(self@, parent as int, all, carry@, path_index as int),
            ensures
                self@ == goal,
                well_formed(self@),
            decreases paths@.len() - path_index,
        {
            let path = &paths[path_index];
            assert(all[path_index as int] == path@);
            if !path.value.is_empty {
                let opt_child = self.nodes[parent].get_lchild(path.identity);
                assert(self@[parent as int] == self.nodes@[parent as int]@);
                let rest = slice_subrange(paths.as_slice(), path_index + 1, paths.len());
                assert(views(rest@) =~= all.skip(path_index + 1));
                let reindex = path.paths_after(rest);
                match opt_child {
                    Some(child) => {
                        if !path.value.is_leaf {
                            carry = carry.add(reindex, child);
                        } else {
                            parent = child;
                        }
                    },
                    None => {
                        if path.value.is_leaf {
                            let rest = paths.split_off(path_index);
                            assert(views(rest@) =~= all.skip(path_index as int));
                            self.create_paths(parent, rest, carry, path_index);
                            break ;
                        } else {
                            let unique_child = path.value.unique;
                            let path_id = path.identity;
                            let child_node = FSNode::new(Some(path.value.clone()));
                            let (child, new_carry) = self.intern_lchild(
                                parent,
                                path_id,
                                unique_child,
                                child_node,
                                carry,
                                path_index,
                            );
                            carry = new_carry.add(reindex, child);
                        }
                    },
                }
            }
            path_index += 1;
        }
    }

    /// Inserts the fact `fact`, known or not. No node is taken away, and no
    /// node comes to hold another segment. A ground fact whose leaves are
    /// filed apart from its branching points is known afterwards.
    pub fn add_fact(&mut self, fact: Vec<MPPath>)
        requires
            well_formed(old(self)@),
        ensures
            final(self)@ == add_fact(old(self)@, views(fact@)),
            well_formed(final(self)@),
            ground(views(fact@)) && apart(views(fact@)) ==> known(final(self)@, views(fact@)),
            old(self)@.len() <= final(self)@.len(),
            forall|n: int|
                0 <= n < old(self)@.len() ==> (#[trigger] final(self)@[n]).value == old(self)@[n].value,
    {
        proof {
            law_trie_is_append_only(self@, views(fact@));
            if ground(views(fact@)) && apart(views(fact@)) {
                law_added_fact_is_found_once(self@, views(fact@));
            }
        }
        let carry = CarryOver::new();
        self.follow_and_create_paths(0, fact, carry);
    }
}

} // verus!
