//! The knowledge base: a parser and the set of the facts it was told.

use crate::facttree::{answers, facts_of, FactSet};
use crate::lexicon::Entries;
use crate::matching::MPMatching;
use crate::parser::{parse_all, trees_of, MPParser, ParseNode, Tree};
use crate::path::MPPath;
use crate::trie::{ask, empty_trie, tell, well_formed, Trie};
use vstd::prelude::*;

verus! {

/// The mathematical value of a [`DB`]: the entries of its lexicon and its trie.
pub ghost struct Knowledge {
    pub entries: Entries,
    pub trie: Trie,
}

impl Knowledge {
    /// What is known once the fact with the parse tree `tree` is told: its
    /// segments are interned, and the fact is inserted unless it is known already.
    pub open spec fn told(self, tree: Tree) -> Knowledge {
        let parsed = tree.parse(self.entries);
        Knowledge { entries: parsed.entries, trie: tell(self.trie, parsed.paths) }
    }

    /// What is known once the facts of `trees` from `from` on are told, one
    /// after the other.
    pub open spec fn told_all(self, trees: Seq<Tree>, from: int) -> Knowledge
        decreases trees.len() - from,
    {
        if from < 0 || from >= trees.len() {
            self
        } else {
            self.told(trees[from]).told_all(trees, from + 1)
        }
    }
}

/// A knowledge base.
pub struct DB {
    pub mpparser: MPParser,
    pub facts: FactSet,
}

impl View for DB {
    type V = Knowledge;

    open spec fn view(&self) -> Knowledge {
        Knowledge { entries: self.mpparser.lexicon@, trie: self.facts@ }
    }
}

impl DB {
    /// A knowledge base that was told nothing.
    pub fn new() -> (db: DB)
        ensures
            db@ == (Knowledge { entries: Map::empty(), trie: empty_trie() }),
            well_formed(db@.trie),
    {
        DB { mpparser: MPParser::new(), facts: FactSet::new() }
    }

    /// Tells the facts with the parse trees `facts`, one after the other. A
    /// fact that is known already is not inserted again.
    pub fn tell(&mut self, facts: &Vec<ParseNode>)
        requires
            well_formed(old(self)@.trie),
        ensures
            final(self)@ == old(self)@.told_all(trees_of(facts@), 0),
            well_formed(final(self)@.trie),
    {
        let ghost trees = trees_of(facts@);
        let ghost goal = self@.told_all(trees, 0);
        let mut i: usize = 0;
        while i < facts.len()
            invariant
                i <= facts@.len(),
                trees == trees_of(facts@),
                well_formed(self@.trie),
                goal == self@.told_all(trees, i as int),
            decreases facts@.len() - i,
        {
            let fact = &facts[i];
            assert(trees[i as int] == fact@);
            let fact_paths = self.mpparser.parse_fact(fact);
            self.facts.tell(fact_paths);
            i += 1;
        }
    }

    /// Asks for the facts with the parse trees `facts`, taken together: the
    /// matchings under which the trie holds them all, in no particular order.
    /// The segments of the question are interned on the way.
    pub fn ask(&mut self, facts: &Vec<ParseNode>) -> (response: Vec<MPMatching>)
        requires
            well_formed(old(self)@.trie),
            facts@.len() > 0,
        ensures
            answers(response@).to_multiset() == ask(
                old(self)@.trie,
                parse_all(trees_of(facts@), old(self)@.entries, 0).facts,
            ),
            final(self)@.entries == parse_all(trees_of(facts@), old(self)@.entries, 0).entries,
            final(self)@.trie == old(self)@.trie,
    {
        let ghost trees = trees_of(facts@);
        let ghost goal = parse_all(trees, self@.entries, 0);
        let mut all: Vec<Vec<MPPath>> = Vec::new();
        let mut i: usize = 0;
        while i < facts.len()
            invariant
                i <= facts@.len(),
                trees == trees_of(facts@),
                all@.len() == i,
                self@.trie == old(self)@.trie,
                goal.entries == parse_all(trees, self@.entries, i as int).entries,
                goal.facts == facts_of(all@) + parse_all(trees, self@.entries, i as int).facts,
            decreases facts@.len() - i,
        {
            let fact = &facts[i];
            assert(trees[i as int] == fact@);
            let ghost here = self@.entries;
            let ghost so_far = facts_of(all@);
            let fact_paths = self.mpparser.parse_fact(fact);
            all.push(fact_paths);
            proof {
                let first = trees[i as int].parse(here);
                assert(facts_of(all@) =~= so_far.push(first.paths));
                assert(so_far + parse_all(trees, here, i as int).facts =~= facts_of(all@)
                    + parse_all(trees, first.entries, i + 1).facts);
            }
            i += 1;
        }
        proof {
            assert(facts_of(all@) + parse_all(trees, self@.entries, i as int).facts =~= facts_of(
                all@,
            ));
        }
        self.facts.ask_facts(all)
    }
}

} // verus!
