//! From the parse tree of a fact to its paths.

use crate::constants::VAR_RANGE_PREFIX;
use crate::hashing::{calculate_name_hash, text_hash};
use crate::lexicon::{interned, interning, Entries, Lexicon};
use crate::path::{copy_steps, views, MPPath, Path, TSegment};
use crate::segment::has_prefix;
use vstd::prelude::*;

verus! {

/// The mathematical value of a [`ParseNode`].
pub ghost struct Tree {
    pub name: Seq<char>,
    pub text: Seq<char>,
    pub children: Seq<Tree>,
}

/// A node of the parse tree of a fact: the grammar rule that matched, the
/// text it matched, and the nodes of the rules that matched inside it.
#[derive(Debug)]
pub struct ParseNode {
    pub name: String,
    pub text: String,
    pub children: Vec<ParseNode>,
}

/// The value of a parse node: its rule, its text, and the values of the
/// nodes inside it.
pub open spec fn tree_of(node: ParseNode) -> Tree
    decreases node,
{
    Tree {
        name: node.name@,
        text: node.text@,
        children: Seq::new(
            node.children@.len(),
            |i: int|
                if 0 <= i < node.children@.len() {
                    tree_of(node.children@[i])
                } else {
                    arbitrary()
                },
        ),
    }
}

impl View for ParseNode {
    type V = Tree;

    open spec fn view(&self) -> Tree {
        tree_of(*self)
    }
}

/// What a walk through a parse tree has gathered: the entries of the lexicon
/// and the paths emitted so far.
pub ghost struct Gathered {
    pub entries: Entries,
    pub paths: Seq<Path>,
}

impl Tree {
    /// Whether the node has no nodes inside it.
    pub open spec fn is_leaf(self) -> bool {
        self.children.len() == 0
    }

    /// Whether the node gets a path of its own: a leaf does, and so does a
    /// node whose rule may host a variable.
    pub open spec fn emits(self) -> bool {
        self.is_leaf() || VAR_RANGE_PREFIX@.is_prefix_of(self.name)
    }

    /// The step that stands for the node in the walks of the nodes inside it.
    pub open spec fn step(self) -> TSegment {
        TSegment { name: text_hash(self.name), text: text_hash(self.text) }
    }

    /// What is gathered once the node and all inside it are visited, in
    /// pre-order, below the walk `ancestors`. A node without text is passed
    /// over with all inside it. Any other node has its segment interned, and a
    /// node that emits has a path to that segment added.
    pub open spec fn visit(self, so_far: Gathered, ancestors: Seq<TSegment>) -> Gathered
        decreases self, 0int,
    {
        if self.text.len() == 0 {
            so_far
        } else {
            let segment = interned(so_far.entries, self.name, self.text, self.is_leaf());
            let here = Gathered {
                entries: interning(so_far.entries, self.name, self.text, self.is_leaf()),
                paths: if self.emits() {
                    so_far.paths.push(Path::to(ancestors, segment))
                } else {
                    so_far.paths
                },
            };
            if self.is_leaf() {
                here
            } else {
                visit_all(self.children, here, ancestors.push(self.step()), 0)
            }
        }
    }

    /// The paths of the fact whose parse tree this is, gathered into `entries`.
    pub open spec fn parse(self, entries: Entries) -> Gathered {
        self.visit(Gathered { entries, paths: Seq::empty() }, Seq::empty())
    }
}

/// What is gathered once the nodes of `nodes` from `from` on are visited, one
/// after the other.
pub open spec fn visit_all(
    nodes: Seq<Tree>,
    so_far: Gathered,
    ancestors: Seq<TSegment>,
    from: int,
) -> Gathered
    decreases nodes, nodes.len() - from,
{
    if from < 0 || from >= nodes.len() {
        so_far
    } else {
        visit_all(nodes, nodes[from].visit(so_far, ancestors), ancestors, from + 1)
    }
}

/// The values of a row of parse trees.
pub open spec fn trees_of(nodes: Seq<ParseNode>) -> Seq<Tree> {
    nodes.map_values(|node: ParseNode| node@)
}

/// What parsing a row of facts gives: the entries of the lexicon and the
/// paths of each fact.
pub ghost struct Parsed {
    pub entries: Entries,
    pub facts: Seq<Seq<Path>>,
}

/// What parsing the facts of `trees` from `from` on gives, each parsed into
/// the entries that the one before it left.
pub open spec fn parse_all(trees: Seq<Tree>, entries: Entries, from: int) -> Parsed
    decreases trees.len() - from,
{
    if from < 0 || from >= trees.len() {
        Parsed { entries, facts: Seq::empty() }
    } else {
        let first = trees[from].parse(entries);
        let others = parse_all(trees, first.entries, from + 1);
        Parsed { entries: others.entries, facts: seq![first.paths] + others.facts }
    }
}

impl ParseNode {
    /// The value of a node is made of the values of the nodes inside it.
    pub proof fn lemma_view(self)
        ensures
            self@.name == self.name@,
            self@.text == self.text@,
            self@.children.len() == self.children@.len(),
            forall|i: int|
                0 <= i < self.children@.len() ==> self@.children[i] == (
                #[trigger] self.children@[i])@,
    {
    }

    /// A node of the rule `name` that matched `text` around `children`.
    pub fn new(name: String, text: String, children: Vec<ParseNode>) -> (node: ParseNode)
        ensures
            node.name == name,
            node.text == text,
            node.children == children,
    {
        ParseNode { name, text, children }
    }
}

/// Turns parse trees into paths, interning the segments on the way.
pub struct MPParser {
    pub lexicon: Lexicon,
}

impl MPParser {
    /// A parser with an empty lexicon.
    pub fn new() -> (parser: MPParser)
        ensures
            parser.lexicon@ == Map::<u64, crate::segment::Segment>::empty(),
    {
        MPParser { lexicon: Lexicon::new() }
    }

    /// The paths of the fact whose parse tree is `parse_tree`, in pre-order.
    pub fn parse_fact(&mut self, parse_tree: &ParseNode) -> (paths: Vec<MPPath>)
        ensures
            views(paths@) == parse_tree@.parse(old(self).lexicon@).paths,
            final(self).lexicon@ == parse_tree@.parse(old(self).lexicon@).entries,
    {
        let paths = self.visit_parse_node(parse_tree, Vec::new(), Vec::new());
        assert(views(Seq::<MPPath>::empty()) =~= Seq::<Path>::empty());
        paths
    }

    /// Visits `parse_tree` and all inside it, in pre-order, below the walk
    /// `root_segments`, and adds to `all_paths` a path for each node that emits.
    pub fn visit_parse_node(
        &mut self,
        parse_tree: &ParseNode,
        root_segments: Vec<TSegment>,
        all_paths: Vec<MPPath>,
    ) -> (paths: Vec<MPPath>)
        ensures
            views(paths@) == parse_tree@.visit(
                Gathered { entries: old(self).lexicon@, paths: views(all_paths@) },
                root_segments@,
            ).paths,
            final(self).lexicon@ == parse_tree@.visit(
                Gathered { entries: old(self).lexicon@, paths: views(all_paths@) },
                root_segments@,
            ).entries,
        decreases parse_tree,
    {
        proof {
            parse_tree.lemma_view();
        }
        let mut all_paths = all_paths;
        let text = parse_tree.text.as_str();
        if text.unicode_len() == 0 {
            return all_paths;
        }
        let name = parse_tree.name.clone();
        let in_var_range = has_prefix(name.as_str(), VAR_RANGE_PREFIX);
        let is_leaf = parse_tree.children.len() == 0;
        let ghost start = Gathered { entries: self.lexicon@, paths: views(all_paths@) };
        let segment = self.lexicon.intern_with_name(name, text, is_leaf);
        if in_var_range || is_leaf {
            let walk = copy_steps(&root_segments, root_segments.len());
            assert(walk@ =~= root_segments@);
            let new_path = MPPath::new(walk, segment);
            let ghost before = views(all_paths@);
            all_paths.push(new_path);
            assert(views(all_paths@) =~= before.push(new_path@));
        }
        if !is_leaf {
            let mut next_root_segments = root_segments;
            next_root_segments.push(
                TSegment {
                    name: calculate_name_hash(parse_tree.name.as_str()),
                    text: calculate_name_hash(text),
                },
            );
            let ghost nodes = parse_tree@.children;
            let ghost goal = parse_tree@.visit(start, root_segments@);
            let mut i: usize = 0;
            while i < parse_tree.children.len()
                invariant
                    i <= parse_tree.children@.len(),
                    nodes == parse_tree@.children,
                    nodes.len() == parse_tree.children@.len(),
                    forall|j: int|
                        0 <= j < parse_tree.children@.len() ==> nodes[j] == (
                        #[trigger] parse_tree.children@[j])@,
                    goal == visit_all(
                        nodes,
                        Gathered { entries: self.lexicon@, paths: views(all_paths@) },
                        next_root_segments@,
                        i as int,
                    ),
                decreases parse_tree.children@.len() - i,
            {
                let child = &parse_tree.children[i];
                assert(nodes[i as int] == child@);
                let walk = copy_steps(&next_root_segments, next_root_segments.len());
                assert(walk@ =~= next_root_segments@);
                all_paths = self.visit_parse_node(child, walk, all_paths);
                i += 1;
            }
        }
        all_paths
    }
}

} // verus!
