//! Segments: the grammar tokens that facts are made of.

use crate::constants::{UNIQUE_PREFIX, VAR_RANGE_PREFIX, VAR_RULE_NAME};
use vstd::prelude::*;
use vstd::std_specs::cmp::PartialEqSpecImpl;
use vstd::string::StringExecFns;

verus! {

/// Whether `c` carries the Unicode property `White_Space`.
pub open spec fn is_white_space(c: char) -> bool {
    let n = c as u32;
    ||| 0x09 <= n <= 0x0d
    ||| n == 0x20
    ||| n == 0x85
    ||| n == 0xa0
    ||| n == 0x1680
    ||| 0x2000 <= n <= 0x200a
    ||| n == 0x2028
    ||| n == 0x2029
    ||| n == 0x202f
    ||| n == 0x205f
    ||| n == 0x3000
}

/// Whether a text holds nothing but white space.
pub open spec fn is_blank(text: Seq<char>) -> bool {
    forall|i: int| 0 <= i < text.len() ==> is_white_space(#[trigger] text[i])
}

/// What identifies a segment: two segments with the same key are the same token.
pub type SegmentKey = (Seq<char>, Seq<char>);

/// The mathematical value of an [`MPSegment`].
pub ghost struct Segment {
    pub text: Seq<char>,
    pub name: Seq<char>,
    pub is_leaf: bool,
    pub is_var: bool,
    pub in_var_range: bool,
    pub is_empty: bool,
    pub unique: bool,
}

impl Segment {
    /// The rule name and the text, by which segments are compared.
    pub open spec fn key(self) -> SegmentKey {
        (self.name, self.text)
    }

    /// The segment of a parse node: its flags are read off the rule name and
    /// the text.
    pub open spec fn of_rule(name: Seq<char>, text: Seq<char>, is_leaf: bool) -> Segment {
        Segment {
            text,
            name,
            is_leaf,
            is_var: name == VAR_RULE_NAME@,
            in_var_range: VAR_RANGE_PREFIX@.is_prefix_of(name),
            is_empty: is_blank(text),
            unique: UNIQUE_PREFIX@.is_prefix_of(name),
        }
    }
}

/// A grammar token: the rule that produced it, the text it covers, and what the
/// rule's name says about its role.
#[derive(Debug)]
pub struct MPSegment {
    pub text: String,
    pub name: String,
    pub is_leaf: bool,
    pub is_var: bool,
    pub in_var_range: bool,
    pub is_empty: bool,
    pub unique: bool,
}

impl View for MPSegment {
    type V = Segment;

    open spec fn view(&self) -> Segment {
        Segment {
            text: self.text@,
            name: self.name@,
            is_leaf: self.is_leaf,
            is_var: self.is_var,
            in_var_range: self.in_var_range,
            is_empty: self.is_empty,
            unique: self.unique,
        }
    }
}

fn white_space(c: char) -> (b: bool)
    ensures
        b == is_white_space(c),
{
    let n: u32 = c as u32;
    (0x09 <= n && n <= 0x0d) || n == 0x20 || n == 0x85 || n == 0xa0 || n == 0x1680 || (0x2000 <= n
        && n <= 0x200a) || n == 0x2028 || n == 0x2029 || n == 0x202f || n == 0x205f || n == 0x3000
}

/// Decides whether `text` holds nothing but white space.
pub fn blank(text: &str) -> (b: bool)
    ensures
        b == is_blank(text@),
{
    for c in it: text.chars()
        invariant
            it.seq() == text@,
            forall|i: int| 0 <= i < it.index() ==> is_white_space(#[trigger] text@[i]),
    {
        if !white_space(c) {
            return false;
        }
    }
    true
}

/// Decides whether `text` begins with `prefix`.
pub fn has_prefix(text: &str, prefix: &str) -> (b: bool)
    ensures
        b == prefix@.is_prefix_of(text@),
{
    let n = prefix.unicode_len();
    if text.unicode_len() < n {
        return false;
    }
    let mut i: usize = 0;
    while i < n
        invariant
            i <= n,
            n == prefix@.len(),
            n <= text@.len(),
            forall|j: int| 0 <= j < i ==> text@[j] == prefix@[j],
        decreases n - i,
    {
        if text.get_char(i) != prefix.get_char(i) {
            assert(text@.subrange(0, n as int)[i as int] != prefix@[i as int]);
            return false;
        }
        i += 1;
    }
    assert(prefix@ =~= text@.subrange(0, n as int));
    true
}

/// Decides whether two texts are the same.
pub fn same_text(a: &str, b: &str) -> (same: bool)
    ensures
        same == (a@ == b@),
{
    let same = a.unicode_len() == b.unicode_len() && has_prefix(a, b);
    proof {
        if same {
            assert(a@ =~= b@);
        }
    }
    same
}

impl MPSegment {
    /// Builds a segment from its parts; only `is_empty` is computed, from the text.
    pub fn new(
        name: String,
        text: String,
        is_leaf: bool,
        is_var: bool,
        in_var_range: bool,
        unique: bool,
    ) -> (segment: MPSegment)
        ensures
            segment@ == (Segment {
                text: text@,
                name: name@,
                is_leaf,
                is_var,
                in_var_range,
                is_empty: is_blank(text@),
                unique,
            }),
    {
        let is_empty = blank(text.as_str());
        MPSegment { name, text, is_leaf, is_var, in_var_range, is_empty, unique }
    }

    /// The rule name, a colon and the text.
    pub fn to_text(&self) -> (out: String)
        ensures
            out@ == self@.name + ": "@ + self@.text,
    {
        let mut out = self.name.clone();
        out.append(": ");
        out.append(self.text.as_str());
        out
    }
}

impl Clone for MPSegment {
    fn clone(&self) -> (copy: Self)
        ensures
            copy@ == self@,
    {
        MPSegment {
            text: self.text.clone(),
            name: self.name.clone(),
            is_leaf: self.is_leaf,
            is_var: self.is_var,
            in_var_range: self.in_var_range,
            is_empty: self.is_empty,
            unique: self.unique,
        }
    }
}

impl PartialEq for MPSegment {
    fn eq(&self, other: &Self) -> (same: bool) {
        self.name == other.name && self.text == other.text
    }
}

impl PartialEqSpecImpl for MPSegment {
    open spec fn obeys_eq_spec() -> bool {
        true
    }

    open spec fn eq_spec(&self, other: &Self) -> bool {
        self@.key() == other@.key()
    }
}

impl Eq for MPSegment {

}

} // verus!
