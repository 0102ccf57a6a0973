//! The lexicon: a store that hands out one segment for each rule name, text
//! and leaf flag, filed under their hash.

use crate::constants::{UNIQUE_PREFIX, VAR_RANGE_PREFIX, VAR_RULE_NAME};
use crate::hashing::{flag_writes, segment_hash, text_writes, write_flag, write_text};
use crate::segment::{has_prefix, same_text, MPSegment, Segment};
use std::collections::hash_map::DefaultHasher;
use std::collections::HashMap;
use std::hash::Hasher;
use vstd::prelude::*;

verus! {

/// The mathematical value of a [`Lexicon`]: the segment filed under each hash.
pub type Entries = Map<u64, Segment>;

/// What interning a rule name, a text and a leaf flag hands out: the segment
/// already filed under their hash where there is one, else a new one.
pub open spec fn interned(
    entries: Entries,
    name: Seq<char>,
    text: Seq<char>,
    is_leaf: bool,
) -> Segment {
    let key = segment_hash(name, text, is_leaf);
    if entries.contains_key(key) {
        entries[key]
    } else {
        Segment::of_rule(name, text, is_leaf)
    }
}

/// The entries after a rule name, a text and a leaf flag are interned.
pub open spec fn interning(
    entries: Entries,
    name: Seq<char>,
    text: Seq<char>,
    is_leaf: bool,
) -> Entries {
    let key = segment_hash(name, text, is_leaf);
    if entries.contains_key(key) {
        entries
    } else {
        entries.insert(key, Segment::of_rule(name, text, is_leaf))
    }
}

/// Whether every entry is a segment as interning makes it, filed under its
/// own hash: the flags of the segment are read off its rule name and its text.
pub open spec fn consistent(entries: Entries) -> bool {
    forall|key: u64| #[trigger]
        entries.contains_key(key) ==> {
            let segment = entries[key];
            &&& key == segment_hash(segment.name, segment.text, segment.is_leaf)
            &&& segment == Segment::of_rule(segment.name, segment.text, segment.is_leaf)
        }
}

/// Interning into consistent entries leaves them consistent, and hands out a
/// segment that has the hash that was asked for and the flags that its own
/// rule name and text give.
pub proof fn lemma_interning_consistent(
    entries: Entries,
    name: Seq<char>,
    text: Seq<char>,
    is_leaf: bool,
)
    requires
        consistent(entries),
    ensures
        consistent(interning(entries, name, text, is_leaf)),
        segment_hash(
            interned(entries, name, text, is_leaf).name,
            interned(entries, name, text, is_leaf).text,
            interned(entries, name, text, is_leaf).is_leaf,
        ) == segment_hash(name, text, is_leaf),
        interned(entries, name, text, is_leaf) == Segment::of_rule(
            interned(entries, name, text, is_leaf).name,
            interned(entries, name, text, is_leaf).text,
            interned(entries, name, text, is_leaf).is_leaf,
        ),
{
}

/// Interning the same name, text and leaf flag a second time hands out the
/// same segment and leaves the entries as they are.
pub proof fn law_interning_twice(entries: Entries, name: Seq<char>, text: Seq<char>, is_leaf: bool)
    ensures
        interned(interning(entries, name, text, is_leaf), name, text, is_leaf) == interned(
            entries,
            name,
            text,
            is_leaf,
        ),
        interning(interning(entries, name, text, is_leaf), name, text, is_leaf) == interning(
            entries,
            name,
            text,
            is_leaf,
        ),
{
}

/// A store of segments.
pub struct Lexicon {
    segments: HashMap<u64, MPSegment>,
}

impl View for Lexicon {
    type V = Entries;

    closed spec fn view(&self) -> Entries {
        self.segments@.map_values(|s: MPSegment| s@)
    }
}

impl Lexicon {
    #[verifier::type_invariant]
    spec fn entries_consistent(self) -> bool {
        consistent(self@)
    }

    /// The empty lexicon.
    pub fn new() -> (lexicon: Lexicon)
        ensures
            lexicon@ == Map::<u64, Segment>::empty(),
            consistent(lexicon@),
    {
        let segments: HashMap<u64, MPSegment> = HashMap::new();
        assert(segments@.map_values(|s: MPSegment| s@) =~= Map::<u64, Segment>::empty());
        Lexicon { segments }
    }


    /// The hash under which a rule name, a text and a leaf flag are filed.
    pub fn calculate_hash(&self, name: &str, text: &str, is_leaf: bool) -> (hash: u64)
        ensures
            hash == segment_hash(name@, text@, is_leaf),
    {
        let mut s = DefaultHasher::new();
        write_text(&mut s, name);
        write_text(&mut s, text);
        write_flag(&mut s, is_leaf);
        assert(s@ =~= text_writes(name@) + text_writes(text@) + flag_writes(is_leaf));
        s.finish()
    }

    /// The segment filed under `hash`, if there is one.
    pub fn get(&self, hash: u64) -> (segment: Option<&MPSegment>)
        ensures
            segment is Some == self@.contains_key(hash),
            segment matches Some(s) ==> s@ == self@[hash],
            consistent(self@),
    {
        proof {
            use_type_invariant(self);
        }
        self.segments.get(&hash)
    }

    /// Hands out the segment for `name`, `text` and `is_leaf`: the one already
    /// filed under their hash, or a new one, which is then filed.
    pub fn intern_with_name(&mut self, name: String, text: &str, is_leaf: bool) -> (segment:
        MPSegment)
        ensures
            segment@ == interned(old(self)@, name@, text@, is_leaf),
            final(self)@ == interning(old(self)@, name@, text@, is_leaf),
            consistent(old(self)@),
            consistent(final(self)@),
    {
        proof {
            use_type_invariant(&*self);
            lemma_interning_consistent(self@, name@, text@, is_leaf);
        }
        let key = self.calculate_hash(name.as_str(), text, is_leaf);
        if !self.segments.contains_key(&key) {
            let is_var = same_text(name.as_str(), VAR_RULE_NAME);
            let in_var_range = has_prefix(name.as_str(), VAR_RANGE_PREFIX);
            let unique = has_prefix(name.as_str(), UNIQUE_PREFIX);
            let segment = MPSegment::new(
                name,
                text.to_owned(),
                is_leaf,
                is_var,
                in_var_range,
                unique,
            );
            let interned = segment.clone();
            let ghost before = self@;
            let mut taken = Lexicon::new();
            std::mem::swap(self, &mut taken);
            let mut segments = taken.segments;
            segments.insert(key, segment);
            assert(segments@.map_values(|s: MPSegment| s@) =~= before.insert(key, interned@));
            *self = Lexicon { segments };
            interned
        } else {
            let interned = self.segments.get(&key).unwrap();
            interned.clone()
        }
    }
}

} // verus!
