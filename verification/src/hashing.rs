//! What is fed to the hasher, and in which order, when names, texts and paths
//! are hashed.

use std::collections::hash_map::DefaultHasher;
use std::hash::Hasher;
use vstd::bytes::{spec_u64_to_le_bytes, u64_to_le_bytes};
use vstd::prelude::*;
use vstd::std_specs::hash::DefaultHasherAdditionalSpecFns;
use vstd::utf8::encode_utf8;

verus! {

/// The writes that feed a text: its bytes, then a byte that no text holds, so
/// that two texts fed in a row cannot be read as two others.
pub open spec fn text_writes(text: Seq<char>) -> Seq<Seq<u8>> {
    seq![encode_utf8(text), seq![0xffu8]]
}

/// The write that feeds a 64-bit word.
pub open spec fn word_writes(word: u64) -> Seq<Seq<u8>> {
    seq![spec_u64_to_le_bytes(word)]
}

/// The write that feeds a flag.
pub open spec fn flag_writes(flag: bool) -> Seq<Seq<u8>> {
    seq![seq![if flag { 1u8 } else { 0u8 }]]
}

/// The hash of a lone text.
pub open spec fn text_hash(text: Seq<char>) -> u64 {
    DefaultHasher::spec_finish(text_writes(text))
}

/// The hash under which a rule name, a text and a leaf flag are interned.
pub open spec fn segment_hash(name: Seq<char>, text: Seq<char>, is_leaf: bool) -> u64 {
    DefaultHasher::spec_finish(text_writes(name) + text_writes(text) + flag_writes(is_leaf))
}

/// Feeds a text to `hasher`.
pub fn write_text(hasher: &mut DefaultHasher, text: &str)
    ensures
        final(hasher)@ == old(hasher)@ + text_writes(text@),
{
    hasher.write(text.as_bytes());
    let end: [u8; 1] = [0xff];
    hasher.write(end.as_slice());
    assert(end@ =~= seq![0xffu8]);
    assert(hasher@ =~= old(hasher)@ + text_writes(text@));
}

/// Feeds a 64-bit word to `hasher`.
pub fn write_word(hasher: &mut DefaultHasher, word: u64)
    ensures
        final(hasher)@ == old(hasher)@ + word_writes(word),
{
    let bytes = u64_to_le_bytes(word);
    hasher.write(bytes.as_slice());
    assert(hasher@ =~= old(hasher)@ + word_writes(word));
}

/// Feeds a flag to `hasher`.
pub fn write_flag(hasher: &mut DefaultHasher, flag: bool)
    ensures
        final(hasher)@ == old(hasher)@ + flag_writes(flag),
{
    let byte: [u8; 1] = [if flag { 1 } else { 0 }];
    hasher.write(byte.as_slice());
    assert(byte@ =~= seq![if flag { 1u8 } else { 0u8 }]);
    assert(hasher@ =~= old(hasher)@ + flag_writes(flag));
}

/// Hashes a lone text.
pub fn calculate_name_hash(name: &str) -> (hash: u64)
    ensures
        hash == text_hash(name@),
{
    let mut hasher = DefaultHasher::new();
    write_text(&mut hasher, name);
    assert(hasher@ =~= text_writes(name@));
    hasher.finish()
}

} // verus!
