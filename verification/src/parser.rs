//! The parser: one pass over the lines of a dump, with the open ancestors
//! on a stack.
use vstd::prelude::*;
use vstd::hash_map::StringHashMap;
use crate::arena::{TreeNode, lemma_graph_is_closed, names, in_range, indexed, linked, graph_of, name_at, holds, add_node, add_child, lemma_names_contains};
use crate::model::{ParserModel, TreeModel, ParseError, initial, close_tree, place, step, assemble, rooted, workspace, first_occurrences, acyclic};
use crate::ranking::{rank_nodes, as_nats, lemma_ranks_to_graph, lemma_graph_to_ranks};
use crate::dependency_tree::DependencyTree;
use crate::laws::consistent;
use crate::text::{to_chars, read_depth, tail_of};
use crate::package_id::{identity_of, lemma_identity_has_space};

verus! {

/// The views of a list of strings.
pub open spec fn texts(v: Seq<String>) -> Seq<Seq<char>> {
    Seq::new(v.len(), |i: int| v[i]@)
}

/// The state of the parser between two lines.
pub struct Parser {
    nodes: Vec<TreeNode>,
    index: StringHashMap<usize>,
    stack: Vec<usize>,
    roots: Vec<usize>,
}

impl View for Parser {
    type V = ParserModel;

    closed spec fn view(&self) -> ParserModel {
        ParserModel {
            stack: names(self.nodes@, self.stack@),
            graph: graph_of(self.nodes@, self.index@),
            roots: names(self.nodes@, self.roots@),
        }
    }
}

impl Parser {
    /// What holds of the parser between two lines.
    pub closed spec fn wf(&self) -> bool {
        &&& indexed(self.nodes@, self.index@)
        &&& linked(self.nodes@)
        &&& in_range(self.nodes@, self.stack@)
        &&& in_range(self.nodes@, self.roots@)
        &&& self.stack@.no_duplicates()
        &&& forall|k: Seq<char>| #[trigger] self.index@.contains_key(k) ==> k.contains(' ')
    }

    /// The model of a parser between two lines is consistent.
    pub proof fn lemma_view_consistent(&self)
        requires
            self.wf(),
        ensures
            consistent(self@),
    {
        let nodes = self.nodes@;
        let index = self.index@;
        lemma_graph_is_closed(nodes, index);
        let st = self@;
        assert forall|j: int| 0 <= j < st.stack.len() implies st.graph.contains_key(
            #[trigger] st.stack[j],
        ) by {
            assert(index.contains_key(name_at(nodes, self.stack@[j] as int)));
        }
        assert forall|j: int| 0 <= j < st.roots.len() implies st.graph.contains_key(
            #[trigger] st.roots[j],
        ) by {
            assert(index.contains_key(name_at(nodes, self.roots@[j] as int)));
        }
        assert forall|a: int, b: int|
            0 <= a < st.stack.len() && 0 <= b < st.stack.len() && a != b implies st.stack[a]
            != st.stack[b] by {
            assert(index[name_at(nodes, self.stack@[a] as int)] == self.stack@[a]);
            assert(index[name_at(nodes, self.stack@[b] as int)] == self.stack@[b]);
        }
    }

    /// A parser that has read nothing.
    pub fn new() -> (p: Parser)
        ensures
            p.wf(),
            p@ == initial(),
    {
        let p = Parser {
            nodes: Vec::new(),
            index: StringHashMap::new(),
            stack: Vec::new(),
            roots: Vec::new(),
        };
        assert(p@.stack =~= initial().stack);
        assert(p@.roots =~= initial().roots);
        assert(p@.graph =~= initial().graph);
        p
    }

    /// The number of open ancestors.
    pub fn depth(&self) -> (d: usize)
        ensures
            d == self@.stack.len(),
    {
        self.stack.len()
    }

    /// The number of nodes.
    pub fn node_count(&self) -> (n: usize)
        requires
            self.wf(),
        ensures
            n == self@.graph.dom().len(),
    {
        assert(self@.graph.dom() =~= self.index@.dom());
        self.nodes.len()
    }

    fn name_list(&self, ids: &Vec<usize>) -> (out: Vec<String>)
        requires
            in_range(self.nodes@, ids@),
        ensures
            texts(out@) == names(self.nodes@, ids@),
    {
        let mut out: Vec<String> = Vec::new();
        let mut i: usize = 0;
        while i < ids.len()
            invariant
                i <= ids.len(),
                in_range(self.nodes@, ids@),
                texts(out@) == names(self.nodes@, ids@.take(i as int)),
            decreases ids.len() - i,
        {
            let ghost before = texts(out@);
            out.push(self.nodes[ids[i]].name.clone());
            assert(texts(out@) =~= before.push(name_at(self.nodes@, ids@[i as int] as int)));
            assert(names(self.nodes@, ids@.take(i + 1)) =~= names(
                self.nodes@,
                ids@.take(i as int),
            ).push(name_at(self.nodes@, ids@[i as int] as int)));
            i += 1;
        }
        assert(ids@.take(i as int) == ids@);
        out
    }

    /// The open ancestors, the root of the current tree first.
    pub fn open_ancestors(&self) -> (out: Vec<String>)
        requires
            self.wf(),
        ensures
            texts(out@) == self@.stack,
    {
        self.name_list(&self.stack)
    }

    /// The roots of the trees completed so far, oldest first.
    pub fn roots(&self) -> (out: Vec<String>)
        requires
            self.wf(),
        ensures
            texts(out@) == self@.roots,
    {
        self.name_list(&self.roots)
    }

    fn end_tree(&mut self)
        requires
            old(self).wf(),
        ensures
            final(self).wf(),
            final(self)@ == close_tree(old(self)@),
    {
        if self.stack.len() > 0 {
            let root = self.stack[0];
            self.roots.push(root);
        }
        self.stack.truncate(0);
        assert(self@.stack =~= close_tree(old(self)@).stack);
        assert(self@.roots =~= close_tree(old(self)@).roots);
    }

    fn put(&mut self, depth: usize, id: String)
        requires
            old(self).wf(),
            depth <= old(self)@.stack.len(),
            id@.contains(' '),
        ensures
            final(self).wf(),
            final(self)@ == place(old(self)@, depth as nat, id@),
    {
        let ghost before = self@;
        let ghost goal = place(before, depth as nat, id@);
        let ghost n0 = self.nodes@;
        self.stack.truncate(depth);
        let ghost open = self.stack@;
        assert(names(n0, open) =~= before.stack.take(depth as int));
        let found: Option<usize> = match self.index.get(id.as_str()) {
            Some(i) => Some(*i),
            None => None,
        };
        if let Some(i) = found {
            if depth == 0 {
                self.roots.push(i);
                assert(self@.roots =~= goal.roots);
                assert(self@.stack =~= goal.stack);
                return ;
            }
            proof {
                lemma_names_contains(n0, self.index@, open, i);
            }
            if holds(&self.stack, i) {
                assert(self@.stack =~= goal.stack);
                return ;
            }
        } else {
            proof {
                let ns = names(n0, open);
                if ns.contains(id@) {
                    let j = choose|j: int| 0 <= j < ns.len() && ns[j] == id@;
                    assert(self.index@.contains_key(name_at(n0, open[j] as int)));
                }
            }
        }
        assert(!names(n0, open).contains(id@));
        let ghost id_view = id@;
        let at: usize = match found {
            Some(i) => i,
            None => add_node(&mut self.nodes, &mut self.index, id),
        };
        let ghost n1 = self.nodes@;
        assert(name_at(n1, at as int) == id_view);
        assert(names(n1, open) =~= names(n0, open));
        assert(names(n1, self.roots@) =~= names(n0, self.roots@));
        if depth > 0 {
            let parent = self.stack[depth - 1];
            assert(name_at(n1, parent as int) == names(n1, open).last());
            add_child(&mut self.nodes, &self.index, parent, at);
        }
        self.stack.push(at);
        let ghost n2 = self.nodes@;
        assert(names(n2, self.stack@) =~= goal.stack);
        assert(names(n2, self.roots@) =~= goal.roots);
        assert(self@.graph == goal.graph);
    }

    /// The end of the dump: the tree, or why there is none.
    pub fn finish(self) -> (r: Result<DependencyTree, ParseError>)
        requires
            self.wf(),
        ensures
            match r {
                Ok(tree) => tree.wf() && assemble(self@) == Ok::<TreeModel, ParseError>(tree@),
                Err(e) => assemble(self@) == Err::<TreeModel, ParseError>(e),
            },
    {
        let ghost before = self@;
        let mut parser = self;
        parser.end_tree();
        let count = parser.roots.len();
        if count == 0 {
            return Err(ParseError::NoRoot);
        }
        let Parser { mut nodes, mut index, stack: _, roots } = parser;
        let ghost n0 = nodes@;
        let ghost x0 = index@;
        let ghost g0 = graph_of(n0, x0);
        let ghost root_names = names(n0, roots@);
        let root: usize = if count == 1 {
            roots[0]
        } else {
            let name = "workspace".to_owned();
            proof {
                reveal_strlit("workspace");
                assert(name@ =~= workspace());
                if workspace().contains(' ') {
                    let j = choose|j: int| 0 <= j < workspace().len() && workspace()[j] == ' ';
                    assert(false);
                }
            }
            let at = add_node(&mut nodes, &mut index, name);
            let mut k: usize = 0;
            assert(root_names.take(0) =~= Seq::<Seq<char>>::empty());
            while k < roots.len()
                invariant
                    k <= roots.len(),
                    indexed(nodes@, index@),
                    linked(nodes@),
                    nodes.len() == n0.len() + 1,
                    at == n0.len(),
                    in_range(n0, roots@),
                    root_names == names(n0, roots@),
                    name_at(nodes@, at as int) == workspace(),
                    forall|i: int| 0 <= i < n0.len() ==> #[trigger] name_at(nodes@, i) == name_at(n0, i),
                    !g0.contains_key(workspace()),
                    graph_of(nodes@, index@) == g0.insert(
                        workspace(),
                        first_occurrences(root_names.take(k as int)),
                    ),
                decreases roots.len() - k,
            {
                assert(root_names.take(k + 1).drop_last() == root_names.take(k as int));
                assert(root_names.take(k + 1).last() == name_at(nodes@, roots[k as int] as int));
                add_child(&mut nodes, &index, at, roots[k]);
                assert(graph_of(nodes@, index@) =~= g0.insert(
                    workspace(),
                    first_occurrences(root_names.take(k + 1)),
                ));
                k += 1;
            }
            assert(root_names.take(k as int) == root_names);
            at
        };
        let ghost tree = rooted(before);
        assert(graph_of(nodes@, index@) == tree.graph);
        assert(name_at(nodes@, root as int) == tree.root);
        match rank_nodes(&nodes) {
            Some(rank) => {
                proof {
                    lemma_ranks_to_graph(nodes@, index@, as_nats(rank@));
                }
                Ok(DependencyTree::assemble(nodes, index, root, rank))
            },
            None => {
                proof {
                    if acyclic(tree.graph) {
                        lemma_graph_to_ranks(nodes@, index@);
                    }
                }
                Err(ParseError::Cycle)
            },
        }
    }

    /// Reads one line, given by its characters.
    pub fn feed_chars(&mut self, line: &Vec<char>) -> (r: Result<(), ParseError>)
        requires
            old(self).wf(),
        ensures
            final(self).wf(),
            match step(old(self)@, line@) {
                Ok(next) => r is Ok && final(self)@ == next,
                Err(e) => r == Err::<(), ParseError>(e) && final(self)@ == old(self)@,
            },
    {
        if line.len() == 0 {
            self.end_tree();
            return Ok(());
        }
        let (depth, at) = match read_depth(line) {
            Some(prefix) => prefix,
            None => { return Err(ParseError::MalformedDepth); },
        };
        if depth > self.stack.len() {
            return Ok(());
        }
        let rest = tail_of(line, at);
        let id = match identity_of(&rest) {
            Some(id) => id,
            None => { return Err(ParseError::MalformedPackage); },
        };
        proof {
            lemma_identity_has_space(rest@);
        }
        self.put(depth, id);
        Ok(())
    }

    /// Reads one line.
    pub fn feed_line(&mut self, line: &str) -> (r: Result<(), ParseError>)
        requires
            old(self).wf(),
        ensures
            final(self).wf(),
            match step(old(self)@, line@) {
                Ok(next) => r is Ok && final(self)@ == next,
                Err(e) => r == Err::<(), ParseError>(e) && final(self)@ == old(self)@,
            },
    {
        let chars = to_chars(line);
        self.feed_chars(&chars)
    }
}

} // verus!
