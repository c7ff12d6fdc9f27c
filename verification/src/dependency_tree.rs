//! The tree of dependencies, and read-only views of its nodes.
use vstd::prelude::*;
use vstd::pervasive::unreached;
use vstd::hash_map::StringHashMap;
use crate::arena::{TreeNode, lemma_graph_is_closed, in_range, indexed, linked, graph_of, name_at, kids, ranked};
use crate::ranking::{as_nats, lemma_ranks_to_graph};
use crate::model::{TreeModel, ParseError, ParserModel, parse, run, initial};
use crate::parser::Parser;
use crate::laws::{lemma_run_step, lemma_run_error_sticks};
use crate::text::{to_chars, split_lines, rows, lines};

verus! {

/// A tree of dependencies. It owns its nodes; nothing changes it once it
/// is built.
pub struct DependencyTree {
    nodes: Vec<TreeNode>,
    index: StringHashMap<usize>,
    root: usize,
    rank: Vec<usize>,
}

/// What the source of a dump handed over: whether it succeeded, its exit
/// code if it has one, and what it wrote.
pub struct SourceOutput {
    pub success: bool,
    pub code: Option<i32>,
    pub stdout: String,
    pub stderr: String,
}

/// Why there is no tree.
#[derive(Debug, PartialEq, Eq)]
pub enum TreeError {
    /// The source of the dump failed: its exit code, or -1 if it has none,
    /// and its diagnostics as it wrote them.
    Source { code: i32, diagnostics: String },
    /// The source succeeded, and its dump is not one of a tree. The source
    /// promises the form of its dumps, so this is a fault of the source or
    /// of its caller, fatal to both; `DependencyTree::new` does not take
    /// such a dump.
    Format(ParseError),
}

impl View for DependencyTree {
    type V = TreeModel;

    closed spec fn view(&self) -> TreeModel {
        TreeModel {
            root: name_at(self.nodes@, self.root as int),
            graph: graph_of(self.nodes@, self.index@),
        }
    }
}

impl DependencyTree {
    /// What holds of every tree that this library builds.
    pub closed spec fn wf(&self) -> bool {
        &&& indexed(self.nodes@, self.index@)
        &&& linked(self.nodes@)
        &&& self.root < self.nodes.len()
        &&& ranked(self.nodes@, as_nats(self.rank@))
    }

    /// The model of a tree that this library built is a tree.
    pub proof fn lemma_view_wf(&self)
        requires
            self.wf(),
        ensures
            self@.wf(),
    {
        lemma_ranks_to_graph(self.nodes@, self.index@, as_nats(self.rank@));
        lemma_graph_is_closed(self.nodes@, self.index@);
    }

    pub(crate) fn assemble(
        nodes: Vec<TreeNode>,
        index: StringHashMap<usize>,
        root: usize,
        rank: Vec<usize>,
    ) -> (tree: DependencyTree)
        requires
            indexed(nodes@, index@),
            linked(nodes@),
            root < nodes.len(),
            ranked(nodes@, as_nats(rank@)),
        ensures
            tree.wf(),
            tree@ == (TreeModel { root: name_at(nodes@, root as int), graph: graph_of(nodes@, index@) }),
    {
        DependencyTree { nodes, index, root, rank }
    }

    /// Reads the tree that a dump describes, or says why it describes none.
    pub fn try_parse(text: &str) -> (r: Result<DependencyTree, ParseError>)
        ensures
            match r {
                Ok(tree) => tree.wf() && parse(text@) == Ok::<TreeModel, ParseError>(tree@),
                Err(e) => parse(text@) == Err::<TreeModel, ParseError>(e),
            },
    {
        let chars = to_chars(text);
        let all = split_lines(&chars);
        let mut parser = Parser::new();
        let mut i: usize = 0;
        assert(rows(all@).take(0) =~= Seq::<Seq<char>>::empty());
        while i < all.len()
            invariant
                i <= all.len(),
                parser.wf(),
                rows(all@) == lines(text@),
                run(initial(), rows(all@).take(i as int)) == Ok::<ParserModel, ParseError>(parser@),
            decreases all.len() - i,
        {
            proof {
                lemma_run_step(initial(), rows(all@), i as int);
            }
            match parser.feed_chars(&all[i]) {
                Ok(()) => {},
                Err(e) => {
                    proof {
                        lemma_run_error_sticks(initial(), rows(all@), i + 1);
                    }
                    return Err(e);
                },
            }
            i += 1;
        }
        assert(rows(all@).take(i as int) == rows(all@));
        parser.finish()
    }

    /// Reads the tree that a dump describes. A dump that describes none is
    /// a violation of the form that the source of dumps promises, and no
    /// input of this function: ask `try_parse` where it may be one.
    pub fn parse(text: &str) -> (tree: DependencyTree)
        requires
            parse(text@) is Ok,
        ensures
            tree.wf(),
            parse(text@) == Ok::<TreeModel, ParseError>(tree@),
    {
        match DependencyTree::try_parse(text) {
            Ok(tree) => tree,
            Err(_) => unreached(),
        }
    }

    /// The tree that the source of a dump describes, or the exit code of
    /// the source, -1 if it has none, with its diagnostics as it wrote them.
    /// Where the source failed, its output is not read. Where it succeeded,
    /// a dump that describes no tree is a violation of the form that the
    /// source promises, and no input of this function: ask `try_new` where
    /// it may be one.
    pub fn new(output: &SourceOutput) -> (r: Result<DependencyTree, (i32, String)>)
        requires
            output.success ==> parse(output.stdout@) is Ok,
        ensures
            match r {
                Ok(tree) => output.success && tree.wf() && parse(output.stdout@) == Ok::<
                    TreeModel,
                    ParseError,
                >(tree@),
                Err((code, diagnostics)) => !output.success && code == (match output.code {
                    Some(c) => c,
                    None => -1i32,
                }) && diagnostics@ == output.stderr@,
            },
    {
        match DependencyTree::try_new(output) {
            Ok(tree) => Ok(tree),
            Err(TreeError::Source { code, diagnostics }) => Err((code, diagnostics)),
            Err(TreeError::Format(_)) => unreached(),
        }
    }

    /// The tree that the source of a dump describes, or why there is none.
    /// Where the source failed, its output is not read.
    pub fn try_new(output: &SourceOutput) -> (r: Result<DependencyTree, TreeError>)
        ensures
            match r {
                Ok(tree) => output.success && tree.wf() && parse(output.stdout@) == Ok::<
                    TreeModel,
                    ParseError,
                >(tree@),
                Err(TreeError::Source { code, diagnostics }) => !output.success && code == (match output.code {
                    Some(c) => c,
                    None => -1i32,
                }) && diagnostics@ == output.stderr@,
                Err(TreeError::Format(e)) => output.success && parse(output.stdout@) == Err::<
                    TreeModel,
                    ParseError,
                >(e),
            },
    {
        if !output.success {
            let code: i32 = match output.code {
                Some(c) => c,
                None => -1,
            };
            return Err(TreeError::Source { code, diagnostics: output.stderr.clone() });
        }
        match DependencyTree::try_parse(output.stdout.as_str()) {
            Ok(tree) => Ok(tree),
            Err(e) => Err(TreeError::Format(e)),
        }
    }

    /// The number of nodes.
    pub fn node_count(&self) -> (n: usize)
        requires
            self.wf(),
        ensures
            n == self@.graph.dom().len(),
    {
        assert(self@.graph.dom() =~= self.index@.dom());
        self.nodes.len()
    }

    /// The node with the identity `name`, if there is one.
    pub fn get(&self, name: &str) -> (r: Option<Dependency<'_>>)
        requires
            self.wf(),
        ensures
            match r {
                Some(node) => self@.graph.contains_key(name@) && node.wf() && node.tree() == self@
                    && node.identity() == name@,
                None => !self@.graph.contains_key(name@),
            },
    {
        match self.index.get(name) {
            Some(at) => Some(Dependency { tree: self, at: *at }),
            None => None,
        }
    }

    /// The root.
    pub fn root(&self) -> (node: Dependency<'_>)
        requires
            self.wf(),
        ensures
            node.wf(),
            node.tree() == self@,
            node.identity() == self@.root,
    {
        Dependency { tree: self, at: self.root }
    }
}

/// A node of a tree, for reading.
#[derive(Clone, Copy)]
pub struct Dependency<'a> {
    tree: &'a DependencyTree,
    at: usize,
}

impl<'a> Dependency<'a> {
    /// What holds of every view that a tree hands out.
    pub closed spec fn wf(&self) -> bool {
        &&& self.tree.wf()
        &&& self.at < self.tree.nodes.len()
    }

    /// The tree that the node belongs to.
    pub closed spec fn tree(&self) -> TreeModel {
        self.tree@
    }

    /// The identity of the node.
    pub closed spec fn identity(&self) -> Seq<char> {
        name_at(self.tree.nodes@, self.at as int)
    }

    /// The identities of the children, in the order in which they are handed out.
    pub open spec fn children(&self) -> Seq<Seq<char>> {
        self.tree().graph[self.identity()]
    }

    /// A number that is smaller for every child than for its parent.
    pub closed spec fn height(&self) -> nat {
        self.tree.rank@[self.at as int] as nat
    }

    /// A view is a view of a node of a tree.
    pub proof fn lemma_is_node(&self)
        requires
            self.wf(),
        ensures
            self.tree().wf(),
            self.tree().graph.contains_key(self.identity()),
    {
        self.tree.lemma_view_wf();
    }

    /// The identity of the node.
    pub fn name(&self) -> (r: &str)
        requires
            self.wf(),
        ensures
            r@ == self.identity(),
    {
        self.tree.nodes[self.at].name.as_str()
    }

    /// The number of children.
    pub fn children_count(&self) -> (n: usize)
        requires
            self.wf(),
        ensures
            n == self.children().len(),
    {
        self.tree.nodes[self.at].children.len()
    }

    /// The child at position `k`.
    pub fn child(&self, k: usize) -> (node: Dependency<'a>)
        requires
            self.wf(),
            k < self.children().len(),
        ensures
            node.wf(),
            node.tree() == self.tree(),
            node.identity() == self.children()[k as int],
            node.height() < self.height(),
    {
        assert(in_range(self.tree.nodes@, kids(self.tree.nodes@, self.at as int)));
        assert(as_nats(self.tree.rank@)[kids(self.tree.nodes@, self.at as int)[k as int] as int]
            < as_nats(self.tree.rank@)[self.at as int]);
        Dependency { tree: self.tree, at: self.tree.nodes[self.at].children[k] }
    }

    /// The children, one after the other.
    pub fn into_iter(self) -> (it: DependencyIterator<'a>)
        requires
            self.wf(),
        ensures
            it.wf(),
            it.node() == self,
            it.yielded() == 0,
    {
        DependencyIterator::new(self)
    }
}

/// The children of a node, one after the other. It is made afresh from the
/// tree whenever it is asked for, and two of them do not disturb each other.
pub struct DependencyIterator<'a> {
    node: Dependency<'a>,
    index: usize,
}

impl<'a> DependencyIterator<'a> {
    /// What holds of every iterator that a node hands out: it is one over
    /// the children of a node of a tree, and has handed out no more of them
    /// than there are.
    pub open spec fn wf(&self) -> bool {
        &&& self.node().wf()
        &&& self.yielded() <= self.node().children().len()
    }

    /// The node whose children these are.
    pub closed spec fn node(&self) -> Dependency<'a> {
        self.node
    }

    /// How many children have been handed out.
    pub closed spec fn yielded(&self) -> nat {
        self.index as nat
    }

    /// The children of `node`, none of them handed out yet.
    pub fn new(node: Dependency<'a>) -> (it: DependencyIterator<'a>)
        requires
            node.wf(),
        ensures
            it.wf(),
            it.node() == node,
            it.yielded() == 0,
    {
        DependencyIterator { node, index: 0 }
    }

    /// The identity of the node whose children these are.
    pub fn name(&self) -> (r: &str)
        requires
            self.wf(),
        ensures
            r@ == self.node().identity(),
    {
        self.node.name()
    }

    /// The ordinal, counted from one, of the child handed out last; none
    /// before the first. Asking does not move the iterator.
    pub fn index(&self) -> (r: Option<usize>)
        requires
            self.wf(),
        ensures
            r == (if self.yielded() == 0 {
                None
            } else {
                Some(self.yielded() as usize)
            }),
    {
        if self.index == 0 {
            None
        } else {
            Some(self.index)
        }
    }

    /// The number of children, handed out or not.
    pub fn len(&self) -> (n: usize)
        requires
            self.wf(),
        ensures
            n == self.node().children().len(),
    {
        self.node.children_count()
    }

    /// The next child, if any is left.
    pub fn next(&mut self) -> (r: Option<Dependency<'a>>)
        requires
            old(self).wf(),
        ensures
            final(self).wf(),
            final(self).node() == old(self).node(),
            match r {
                Some(child) => {
                    &&& old(self).yielded() < old(self).node().children().len()
                    &&& final(self).yielded() == old(self).yielded() + 1
                    &&& child.wf()
                    &&& child.tree() == old(self).node().tree()
                    &&& child.identity() == old(self).node().children()[old(self).yielded() as int]
                },
                None => {
                    &&& old(self).yielded() == old(self).node().children().len()
                    &&& final(self).yielded() == old(self).yielded()
                },
            },
    {
        if self.index < self.node.children_count() {
            let child = self.node.child(self.index);
            self.index += 1;
            Some(child)
        } else {
            None
        }
    }
}

} // verus!
