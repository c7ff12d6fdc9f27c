//! The mathematical model of the parser and of the tree it builds.
//!
//! A node is known by its identity, a sequence of characters. A graph maps
//! each identity to the identities of its children, in the order in which
//! they were first listed.
use vstd::prelude::*;
use crate::text::{line_depth, package_part, lines};
use crate::package_id::identity;

verus! {

/// Why a dump yields no tree. The source of dumps promises their form, and
/// each of these is a violation of it: a fault that ends the reading, and
/// that the functions which take nothing but well-formed dumps leave out.
#[derive(Debug, Clone, Copy, PartialEq, Eq)]
pub enum ParseError {
    /// A line has no depth prefix followed by a package identifier, or its
    /// depth does not fit the machine.
    MalformedDepth,
    /// A package identifier does not read `name version`.
    MalformedPackage,
    /// The dump names no root.
    NoRoot,
    /// Some node would be its own descendant.
    Cycle,
}

/// What the parser knows after some lines.
pub struct ParserModel {
    /// The open ancestors, the root of the current tree first.
    pub stack: Seq<Seq<char>>,
    /// The children listed so far for each identity seen so far.
    pub graph: Map<Seq<char>, Seq<Seq<char>>>,
    /// The roots of the trees completed so far, oldest first.
    pub roots: Seq<Seq<char>>,
}

/// A tree: a graph and the identity of its root.
pub struct TreeModel {
    pub root: Seq<char>,
    pub graph: Map<Seq<char>, Seq<Seq<char>>>,
}

/// The identity of the root that joins several trees.
pub open spec fn workspace() -> Seq<char> {
    seq!['w', 'o', 'r', 'k', 's', 'p', 'a', 'c', 'e']
}

/// The parser before the first line.
pub open spec fn initial() -> ParserModel {
    ParserModel { stack: Seq::empty(), graph: Map::empty(), roots: Seq::empty() }
}

/// `children` with `id` as its last entry, unless it is listed already.
pub open spec fn with_child(children: Seq<Seq<char>>, id: Seq<char>) -> Seq<Seq<char>> {
    if children.contains(id) {
        children
    } else {
        children.push(id)
    }
}

/// The end of the current tree: its root, if there is one, joins the roots,
/// and no ancestor stays open.
pub open spec fn close_tree(st: ParserModel) -> ParserModel {
    ParserModel {
        stack: Seq::empty(),
        graph: st.graph,
        roots: if st.stack.len() > 0 {
            st.roots.push(st.stack[0])
        } else {
            st.roots
        },
    }
}

/// A line that names `id` at `depth`, which is at most the number of open
/// ancestors. The ancestors below `depth` stay open. Then:
/// a root that is known already only joins the roots;
/// an identity that is one of the open ancestors is passed over;
/// any other becomes a node if it is none yet, a child of the last open
/// ancestor if there is one, and the new last open ancestor.
pub open spec fn place(st: ParserModel, depth: nat, id: Seq<char>) -> ParserModel {
    let open = st.stack.take(depth as int);
    if depth == 0 && st.graph.contains_key(id) {
        ParserModel { stack: open, graph: st.graph, roots: st.roots.push(id) }
    } else if open.contains(id) {
        ParserModel { stack: open, graph: st.graph, roots: st.roots }
    } else {
        let known = if st.graph.contains_key(id) {
            st.graph
        } else {
            st.graph.insert(id, Seq::empty())
        };
        let linked = if depth > 0 {
            known.insert(open.last(), with_child(known[open.last()], id))
        } else {
            known
        };
        ParserModel { stack: open.push(id), graph: linked, roots: st.roots }
    }
}

/// One line of the dump. An empty line ends the current tree. A line whose
/// depth exceeds the number of open ancestors is passed over, whatever
/// follows its depth.
pub open spec fn step(st: ParserModel, line: Seq<char>) -> Result<ParserModel, ParseError> {
    if line.len() == 0 {
        Ok(close_tree(st))
    } else {
        match line_depth(line) {
            None => Err(ParseError::MalformedDepth),
            Some(depth) => if depth > st.stack.len() {
                Ok(st)
            } else {
                match identity(package_part(line)) {
                    None => Err(ParseError::MalformedPackage),
                    Some(id) => Ok(place(st, depth, id)),
                }
            },
        }
    }
}

/// The lines of a dump, one after the other; the first failure ends it.
pub open spec fn run(st: ParserModel, lines: Seq<Seq<char>>) -> Result<ParserModel, ParseError>
    decreases lines.len(),
{
    if lines.len() == 0 {
        Ok(st)
    } else {
        match run(st, lines.drop_last()) {
            Ok(before) => step(before, lines.last()),
            Err(e) => Err(e),
        }
    }
}

/// The entries of `s` without repetitions, each where it first occurs.
pub open spec fn first_occurrences(s: Seq<Seq<char>>) -> Seq<Seq<char>>
    decreases s.len(),
{
    if s.len() == 0 {
        Seq::empty()
    } else {
        with_child(first_occurrences(s.drop_last()), s.last())
    }
}

/// Whether `rank` falls along every edge of `graph`.
pub open spec fn ranked_by(graph: Map<Seq<char>, Seq<Seq<char>>>, rank: Map<Seq<char>, nat>) -> bool {
    forall|p: Seq<char>, k: int|
        graph.contains_key(p) && 0 <= k < graph[p].len() ==> rank[#[trigger] graph[p][k]]
            < rank[p]
}

/// Whether no node of `graph` is its own descendant: some rank falls along
/// every edge.
pub open spec fn acyclic(graph: Map<Seq<char>, Seq<Seq<char>>>) -> bool {
    exists|rank: Map<Seq<char>, nat>| ranked_by(graph, rank)
}

/// Whether each entry of `path` but the last lists the next as a child.
pub open spec fn descends(graph: Map<Seq<char>, Seq<Seq<char>>>, path: Seq<Seq<char>>) -> bool {
    forall|i: int|
        0 <= i < path.len() - 1 ==> graph.contains_key(#[trigger] path[i]) && graph[path[i]].contains(
            path[i + 1],
        )
}

/// Whether every child of `graph` is a node of it.
pub open spec fn closed(graph: Map<Seq<char>, Seq<Seq<char>>>) -> bool {
    forall|p: Seq<char>, k: int|
        graph.contains_key(p) && 0 <= k < graph[p].len() ==> graph.contains_key(
            #[trigger] graph[p][k],
        )
}

/// Whether no node of `graph` lists a child twice.
pub open spec fn children_distinct(graph: Map<Seq<char>, Seq<Seq<char>>>) -> bool {
    forall|p: Seq<char>| graph.contains_key(p) ==> (#[trigger] graph[p]).no_duplicates()
}

impl TreeModel {
    /// What holds of every tree: it has finitely many nodes, the root is one
    /// of them and so is every child, no child is listed twice, and no node
    /// is its own descendant.
    pub open spec fn wf(self) -> bool {
        &&& self.graph.dom().finite()
        &&& self.graph.contains_key(self.root)
        &&& closed(self.graph)
        &&& children_distinct(self.graph)
        &&& acyclic(self.graph)
    }
}

/// The graph at the end of the dump, with its root: the one root there is,
/// or a node `workspace` above the several roots.
pub open spec fn rooted(st: ParserModel) -> TreeModel {
    let roots = close_tree(st).roots;
    if roots.len() == 1 {
        TreeModel { root: roots[0], graph: st.graph }
    } else {
        TreeModel {
            root: workspace(),
            graph: st.graph.insert(workspace(), first_occurrences(roots)),
        }
    }
}

/// The end of the dump: the tree, unless there is no root or some node
/// would be its own descendant.
pub open spec fn assemble(st: ParserModel) -> Result<TreeModel, ParseError> {
    if close_tree(st).roots.len() == 0 {
        Err(ParseError::NoRoot)
    } else if !acyclic(rooted(st).graph) {
        Err(ParseError::Cycle)
    } else {
        Ok(rooted(st))
    }
}

/// The tree that a dump describes.
pub open spec fn parse(text: Seq<char>) -> Result<TreeModel, ParseError> {
    match run(initial(), lines(text)) {
        Ok(st) => assemble(st),
        Err(e) => Err(e),
    }
}

} // verus!
