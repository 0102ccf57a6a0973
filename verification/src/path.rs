//! Paths: root-to-node walks through the parse tree of a fact.

use crate::hashing::{
    calculate_name_hash, text_hash, text_writes, word_writes, write_text, write_word,
};
use crate::matching::{get_or_key, resolve, MPMatching, Matching};
use crate::segment::{MPSegment, Segment};
use std::collections::hash_map::DefaultHasher;
use std::hash::Hasher;
use vstd::prelude::*;
use vstd::std_specs::cmp::PartialEqSpecImpl;
use vstd::std_specs::hash::DefaultHasherAdditionalSpecFns;
use vstd::string::StringExecFns;

verus! {

/// One step of a walk: the hashed rule name and the hashed text of a parse node.
#[derive(Debug, Clone, Copy, PartialEq, Eq, Structural, Hash)]
pub struct TSegment {
    pub name: u64,
    pub text: u64,
}

/// The step that stands for a segment in a walk.
pub open spec fn step_of(value: Segment) -> TSegment {
    TSegment { name: text_hash(value.name), text: text_hash(value.text) }
}

/// The writes that feed the rule names of a walk, from the root down.
pub open spec fn names_writes(segments: Seq<TSegment>) -> Seq<Seq<u8>>
    decreases segments.len(),
{
    if segments.len() == 0 {
        Seq::empty()
    } else {
        names_writes(segments.drop_last()) + word_writes(segments.last().name)
    }
}

/// The identity of a walk that ends at a node with the text `text`: the hash
/// of the rule names down the walk and of that text.
pub open spec fn path_identity(segments: Seq<TSegment>, text: Seq<char>) -> u64 {
    DefaultHasher::spec_finish(names_writes(segments) + text_writes(text))
}

/// The mathematical value of an [`MPPath`].
pub ghost struct Path {
    /// The segment that the path points at.
    pub value: Segment,
    /// The walk from the root down to the value, the value's own step last.
    pub segments: Seq<TSegment>,
    /// The key under which the path is filed.
    pub identity: u64,
}

impl Path {
    /// The path that leads through `ancestors` to `value`.
    pub open spec fn to(ancestors: Seq<TSegment>, value: Segment) -> Path {
        let segments = ancestors.push(step_of(value));
        Path { value, segments, identity: path_identity(segments, value.text) }
    }

    /// Whether the path is as `to` makes it: its walk ends with the step of
    /// its value, and its identity is the hash of the rule names down the
    /// walk and of the text of the value.
    pub open spec fn proper(self) -> bool {
        &&& self.segments.len() > 0
        &&& self.segments.last() == step_of(self.value)
        &&& self.identity == path_identity(self.segments, self.value.text)
    }

    /// The walk down to the parent of the value.
    pub open spec fn ancestors(self) -> Seq<TSegment> {
        if self.segments.len() > 0 {
            self.segments.drop_last()
        } else {
            self.segments
        }
    }

    /// Whether the walk of `self` begins with the whole walk of `prefix`.
    pub open spec fn starts_with(self, prefix: Path) -> bool {
        prefix.segments.is_prefix_of(self.segments)
    }

    /// Whether the path takes part in the trie at all.
    pub open spec fn counts(self) -> bool {
        !self.value.is_empty
    }

    /// Where the leading run of paths that start with `self` ends, looked for
    /// from `from` on: the index of the first path that counts and does not
    /// start with `self`, or the length of `paths` where there is none.
    pub open spec fn run_end(self, paths: Seq<Path>, from: int) -> int
        decreases paths.len() - from,
    {
        if from < 0 || from >= paths.len() {
            paths.len() as int
        } else if paths[from].counts() && !paths[from].starts_with(self) {
            from
        } else {
            self.run_end(paths, from + 1)
        }
    }

    /// Whether one of the paths before `to` counts and starts with `self`.
    pub open spec fn started(self, paths: Seq<Path>, to: int) -> bool {
        exists|k: int| 0 <= k < to && (#[trigger] paths[k]).counts() && paths[k].starts_with(self)
    }

    /// The number of paths at the front of `paths` that start with `self`:
    /// the length of the leading run of such paths. A blank path inside the
    /// run is counted with it; a run that holds blank paths only is none.
    pub open spec fn paths_after(self, paths: Seq<Path>) -> int {
        let end = self.run_end(paths, 0);
        if self.started(paths, end) {
            end
        } else {
            0
        }
    }

    /// `self` with its value replaced by what the value stands for under `matching`.
    pub open spec fn substitute(self, matching: Matching) -> Path {
        Path::to(self.ancestors(), resolve(matching, self.value))
    }

    /// Every path that counts before the end of the run starts with `self`,
    /// and the path at the end of the run counts and does not.
    pub proof fn lemma_run_end(self, paths: Seq<Path>, from: int)
        requires
            0 <= from <= paths.len(),
        ensures
            from <= self.run_end(paths, from) <= paths.len(),
            forall|j: int|
                from <= j < self.run_end(paths, from) && (#[trigger] paths[j]).counts()
                    ==> paths[j].starts_with(self),
            self.run_end(paths, from) < paths.len() ==> paths[self.run_end(paths, from)].counts()
                && !paths[self.run_end(paths, from)].starts_with(self),
        decreases paths.len() - from,
    {
        if from < paths.len() && !(paths[from].counts() && !paths[from].starts_with(self)) {
            self.lemma_run_end(paths, from + 1);
        }
    }

    /// `paths_after` is the length of the leading run: every path before it
    /// that counts starts with `self`, and the path after the run counts and
    /// does not. It is 0 where the first path that counts does not start
    /// with `self`, and where no path counts.
    pub proof fn lemma_paths_after(self, paths: Seq<Path>)
        ensures
            0 <= self.paths_after(paths) <= paths.len(),
            forall|j: int|
                0 <= j < self.paths_after(paths) && (#[trigger] paths[j]).counts()
                    ==> paths[j].starts_with(self),
            self.paths_after(paths) > 0 ==> self.started(paths, self.paths_after(paths)),
            0 < self.paths_after(paths) < paths.len() ==> paths[self.paths_after(paths)].counts()
                && !paths[self.paths_after(paths)].starts_with(self),
            self.paths_after(paths) == 0 ==> forall|k: int|
                0 <= k < paths.len() && (#[trigger] paths[k]).counts() && paths[k].starts_with(self)
                    ==> exists|j: int|
                    0 <= j < k && (#[trigger] paths[j]).counts() && !paths[j].starts_with(self),
    {
        self.lemma_run_end(paths, 0);
        let end = self.run_end(paths, 0);
        if self.paths_after(paths) == 0 {
            assert forall|k: int|
                0 <= k < paths.len() && (#[trigger] paths[k]).counts() && paths[k].starts_with(
                    self,
                ) implies exists|j: int|
                0 <= j < k && (#[trigger] paths[j]).counts() && !paths[j].starts_with(self) by {
                if k < end {
                    assert(self.started(paths, end));
                } else {
                    assert(paths[end].counts() && !paths[end].starts_with(self));
                }
            }
        }
    }
}

/// Whether a query has to match the path: it counts and is a leaf.
pub open spec fn is_step(path: Path) -> bool {
    path.counts() && path.value.is_leaf
}

/// Whether the path is a branching point: it counts and is no leaf.
pub open spec fn is_branch(path: Path) -> bool {
    path.counts() && !path.value.is_leaf
}

/// The values of a row of paths.
pub open spec fn views(paths: Seq<MPPath>) -> Seq<Path> {
    paths.map_values(|p: MPPath| p@)
}

/// A walk from the root of a fact's parse tree down to one node, with the key
/// under which the trie files it.
#[derive(Debug)]
pub struct MPPath {
    pub value: MPSegment,
    pub segments: Vec<TSegment>,
    pub identity: u64,
}

impl View for MPPath {
    type V = Path;

    open spec fn view(&self) -> Path {
        Path { value: self.value@, segments: self.segments@, identity: self.identity }
    }
}

/// A copy of the first `count` steps of a walk.
pub fn copy_steps(steps: &Vec<TSegment>, count: usize) -> (copy: Vec<TSegment>)
    requires
        count <= steps@.len(),
    ensures
        copy@ == steps@.take(count as int),
{
    let mut copy: Vec<TSegment> = Vec::new();
    let mut i: usize = 0;
    while i < count
        invariant
            i <= count <= steps@.len(),
            copy@ == steps@.take(i as int),
        decreases count - i,
    {
        copy.push(steps[i]);
        assert(steps@.take(i as int).push(steps@[i as int]) =~= steps@.take(i + 1));
        i += 1;
    }
    copy
}

impl MPPath {
    /// The path that leads through `segments`, the steps of the ancestors from
    /// the root down, to `value`. The step of `value` itself is added to the
    /// walk, so that the walk is never empty and ends at the value.
    pub fn new(segments: Vec<TSegment>, value: MPSegment) -> (path: MPPath)
        ensures
            path@ == Path::to(segments@, value@),
            path@.proper(),
    {
        let mut segments = segments;
        let step = TSegment {
            name: calculate_name_hash(value.name.as_str()),
            text: calculate_name_hash(value.text.as_str()),
        };
        segments.push(step);
        let mut hasher = DefaultHasher::new();
        let mut i: usize = 0;
        while i < segments.len()
            invariant
                i <= segments@.len(),
                hasher@ == names_writes(segments@.take(i as int)),
            decreases segments@.len() - i,
        {
            write_word(&mut hasher, segments[i].name);
            proof {
                let next = segments@.take(i + 1);
                assert(next.drop_last() =~= segments@.take(i as int));
                assert(next.last() == segments@[i as int]);
            }
            i += 1;
        }
        assert(segments@.take(i as int) =~= segments@);
        write_text(&mut hasher, value.text.as_str());
        let identity = hasher.finish();
        MPPath { value, segments, identity }
    }

    /// The number of steps of the walk.
    pub fn len(&self) -> (n: usize)
        ensures
            n == self@.segments.len(),
    {
        self.segments.len()
    }

    /// Whether the walk of `self` begins with the whole walk of `path`.
    pub fn starts_with(&self, path: &MPPath) -> (starts: bool)
        ensures
            starts == self@.starts_with(path@),
    {
        let lpath = path.len();
        if self.len() < lpath {
            return false;
        }
        let mut i: usize = 0;
        while i < lpath
            invariant
                i <= lpath,
                lpath == path.segments@.len(),
                lpath <= self.segments@.len(),
                forall|j: int| 0 <= j < i ==> self.segments@[j] == path.segments@[j],
            decreases lpath - i,
        {
            if self.segments[i] != path.segments[i] {
                assert(self.segments@.subrange(0, lpath as int)[i as int] != path.segments@[i as int]);
                return false;
            }
            i += 1;
        }
        assert(path.segments@ =~= self.segments@.subrange(0, lpath as int));
        true
    }

    /// Counts the paths at the front of `paths` that start with `self`: the
    /// length of the leading run of such paths, 0 where the first path that
    /// counts does not start with `self`. A path with a blank value inside
    /// the run is counted with it and otherwise passed over.
    pub fn paths_after(&self, paths: &[MPPath]) -> (count: usize)
        ensures
            count == self@.paths_after(views(paths@)),
            count <= paths@.len(),
            forall|j: int|
                0 <= j < count && (#[trigger] views(paths@)[j]).counts() ==> views(
                    paths@,
                )[j].starts_with(self@),
            count > 0 ==> self@.started(views(paths@), count as int),
            0 < count < paths@.len() ==> views(paths@)[count as int].counts() && !views(
                paths@,
            )[count as int].starts_with(self@),
            count == 0 ==> forall|k: int|
                0 <= k < paths@.len() && (#[trigger] views(paths@)[k]).counts() && views(
                    paths@,
                )[k].starts_with(self@) ==> exists|j: int|
                    0 <= j < k && (#[trigger] views(paths@)[j]).counts() && !views(
                        paths@,
                    )[j].starts_with(self@),
    {
        let ghost all = views(paths@);
        let mut seen = false;
        let mut ended = false;
        let mut i: usize = 0;
        proof {
            self@.lemma_paths_after(all);
        }
        while i < paths.len() && !ended
            invariant
                i <= paths@.len(),
                all == views(paths@),
                seen <==> self@.started(all, i as int),
                !ended ==> self@.run_end(all, 0) == self@.run_end(all, i as int),
                ended ==> self@.run_end(all, 0) == i,
            decreases paths@.len() - i, if ended { 0int } else { 1int },
        {
            let path = &paths[i];
            assert(all[i as int] == path@);
            if path.value.is_empty {
                i += 1;
            } else if path.starts_with(self) {
                seen = true;
                i += 1;
            } else {
                ended = true;
            }
        }
        if seen {
            i
        } else {
            0
        }
    }

    /// `self` with its value replaced by what the value stands for under `matching`.
    pub fn substitute(&self, matching: &MPMatching) -> (path: MPPath)
        ensures
            path@ == self@.substitute(matching@),
            path@.proper(),
    {
        let count = if self.segments.len() > 0 {
            self.segments.len() - 1
        } else {
            0
        };
        let new_segments = copy_steps(&self.segments, count);
        assert(new_segments@ =~= self@.ancestors());
        let new_value = get_or_key(matching, &self.value);
        MPPath::new(new_segments, new_value.clone())
    }

    /// The value of the path between angle brackets.
    pub fn to_text(&self) -> (out: String)
        ensures
            out@ == "<"@ + self@.value.name + ": "@ + self@.value.text + ">"@,
    {
        let mut out = "<".to_owned();
        out.append(self.value.to_text().as_str());
        out.append(">");
        assert(out@ =~= "<"@ + self@.value.name + ": "@ + self@.value.text + ">"@);
        out
    }
}

impl Clone for MPPath {
    fn clone(&self) -> (copy: Self)
        ensures
            copy@ == self@,
    {
        let segments = copy_steps(&self.segments, self.segments.len());
        assert(segments@ =~= self.segments@);
        MPPath { value: self.value.clone(), segments, identity: self.identity }
    }
}

impl PartialEq for MPPath {
    fn eq(&self, other: &Self) -> (same: bool) {
        self.identity == other.identity
    }
}

impl PartialEqSpecImpl for MPPath {
    open spec fn obeys_eq_spec() -> bool {
        true
    }

    open spec fn eq_spec(&self, other: &Self) -> bool {
        self@.identity == other@.identity
    }
}

impl Eq for MPPath {

}

} // verus!
