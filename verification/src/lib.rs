//! A fact index over grammatically structured facts: facts are linearised into
//! paths, folded into one shared prefix trie, and queried with logical variables.
//!
//! A fact is a text that a grammar parses; its parse tree is turned into a row
//! of paths ([`parser`]), each a walk from the root of the tree down to one
//! node ([`path`]) that ends at a segment ([`segment`], [`lexicon`]). The
//! paths of all facts are kept in one trie ([`facttree`]), whose meaning is
//! given in [`trie`]: what inserting a fact does to the nodes, and which
//! matchings ([`matching`]) a query finds. [`knowledge`] puts the parser and
//! the trie together. What holds of telling and asking is proved in [`laws`],
//! from the lemmas of [`walks`] and [`growth`].

pub mod constants;
pub mod hashing;
pub mod segment;
pub mod lexicon;
pub mod matching;
pub mod path;
pub mod trie;
pub mod walks;
pub mod growth;
pub mod laws;
pub mod facttree;
pub mod parser;
pub mod knowledge;
