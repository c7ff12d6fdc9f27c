//! How a graph is stored: nodes in a vector, children as positions in it,
//! and a map from each identity to the position of its node.
use vstd::prelude::*;
use vstd::hash_map::StringHashMap;

verus! {

pub struct TreeNode {
    pub(crate) name: String,
    pub(crate) children: Vec<usize>,
}

pub(crate) open spec fn name_at(nodes: Seq<TreeNode>, i: int) -> Seq<char> {
    nodes[i].name@
}

pub(crate) open spec fn kids(nodes: Seq<TreeNode>, i: int) -> Seq<usize> {
    nodes[i].children@
}

/// The identities of the nodes at the positions `ids`.
pub(crate) open spec fn names(nodes: Seq<TreeNode>, ids: Seq<usize>) -> Seq<Seq<char>> {
    Seq::new(ids.len(), |j: int| name_at(nodes, ids[j] as int))
}

pub(crate) open spec fn in_range(nodes: Seq<TreeNode>, ids: Seq<usize>) -> bool {
    forall|j: int| 0 <= j < ids.len() ==> #[trigger] ids[j] < nodes.len()
}

/// `index` maps the identity of each node to its position, and nothing else.
pub(crate) open spec fn indexed(nodes: Seq<TreeNode>, index: Map<Seq<char>, usize>) -> bool {
    &&& index.dom().finite()
    &&& index.dom().len() == nodes.len()
    &&& forall|i: int|
        0 <= i < nodes.len() ==> index.contains_key(#[trigger] name_at(nodes, i))
            && index[name_at(nodes, i)] == i
    &&& forall|k: Seq<char>| #[trigger]
        index.contains_key(k) ==> index[k] < nodes.len() && name_at(nodes, index[k] as int) == k
}

/// Every child is a position of a node, and no node lists a child twice.
pub(crate) open spec fn linked(nodes: Seq<TreeNode>) -> bool {
    &&& forall|i: int| 0 <= i < nodes.len() ==> in_range(nodes, #[trigger] kids(nodes, i))
    &&& forall|i: int| 0 <= i < nodes.len() ==> (#[trigger] kids(nodes, i)).no_duplicates()
}

pub(crate) open spec fn graph_of(nodes: Seq<TreeNode>, index: Map<Seq<char>, usize>) -> Map<
    Seq<char>,
    Seq<Seq<char>>,
> {
    Map::new(
        |k: Seq<char>| index.contains_key(k),
        |k: Seq<char>| names(nodes, kids(nodes, index[k] as int)),
    )
}

/// Whether `rank` falls along every edge.
pub(crate) open spec fn ranked(nodes: Seq<TreeNode>, rank: Seq<nat>) -> bool {
    &&& rank.len() == nodes.len()
    &&& forall|i: int, j: int|
        0 <= i < nodes.len() && 0 <= j < kids(nodes, i).len() ==> rank[#[trigger] kids(
            nodes,
            i,
        )[j] as int] < rank[i]
}

pub(crate) proof fn lemma_names_contains(
    nodes: Seq<TreeNode>,
    index: Map<Seq<char>, usize>,
    ids: Seq<usize>,
    i: usize,
)
    requires
        indexed(nodes, index),
        in_range(nodes, ids),
        i < nodes.len(),
    ensures
        names(nodes, ids).contains(name_at(nodes, i as int)) <==> ids.contains(i),
{
    let ns = names(nodes, ids);
    let x = name_at(nodes, i as int);
    if ns.contains(x) {
        let j = choose|j: int| 0 <= j < ns.len() && ns[j] == x;
        assert(name_at(nodes, ids[j] as int) == x);
        assert(index[name_at(nodes, ids[j] as int)] == ids[j]);
        assert(ids[j] == i);
    }
    if ids.contains(i) {
        let j = choose|j: int| 0 <= j < ids.len() && ids[j] == i;
        assert(ns[j] == x);
    }
}

/// In the graph of well-kept nodes every child is a node, and no node
/// lists a child twice.
pub(crate) proof fn lemma_graph_is_closed(nodes: Seq<TreeNode>, index: Map<Seq<char>, usize>)
    requires
        indexed(nodes, index),
        linked(nodes),
    ensures
        graph_of(nodes, index).dom().finite(),
        crate::model::closed(graph_of(nodes, index)),
        crate::model::children_distinct(graph_of(nodes, index)),
{
    let graph = graph_of(nodes, index);
    assert(graph.dom() =~= index.dom());
    assert forall|p: Seq<char>, k: int|
        graph.contains_key(p) && 0 <= k < graph[p].len() implies graph.contains_key(
        #[trigger] graph[p][k],
    ) by {
        let i = index[p] as int;
        assert(in_range(nodes, kids(nodes, i)));
        assert(graph[p][k] == name_at(nodes, kids(nodes, i)[k] as int));
    }
    assert forall|p: Seq<char>| graph.contains_key(p) implies (#[trigger] graph[p]).no_duplicates() by {
        let i = index[p] as int;
        let ids = kids(nodes, i);
        assert(in_range(nodes, ids));
        assert(ids.no_duplicates());
        assert forall|a: int, b: int|
            0 <= a < graph[p].len() && 0 <= b < graph[p].len() && a != b implies graph[p][a]
            != graph[p][b] by {
            assert(index[name_at(nodes, ids[a] as int)] == ids[a]);
            assert(index[name_at(nodes, ids[b] as int)] == ids[b]);
        }
    }
}

/// Whether `i` is one of `ids`.
pub(crate) fn holds(ids: &Vec<usize>, i: usize) -> (b: bool)
    ensures
        b == ids@.contains(i),
{
    let mut j: usize = 0;
    while j < ids.len()
        invariant
            j <= ids.len(),
            forall|k: int| 0 <= k < j ==> ids@[k] != i,
        decreases ids.len() - j,
    {
        if ids[j] == i {
            return true;
        }
        j += 1;
    }
    false
}

/// Adds a node without children for an identity that has none yet.
pub(crate) fn add_node(nodes: &mut Vec<TreeNode>, index: &mut StringHashMap<usize>, id: String) -> (at:
    usize)
    requires
        indexed(old(nodes)@, old(index)@),
        linked(old(nodes)@),
        !old(index)@.contains_key(id@),
    ensures
        indexed(final(nodes)@, final(index)@),
        linked(final(nodes)@),
        at == old(nodes).len(),
        final(nodes).len() == old(nodes).len() + 1,
        final(index)@ == old(index)@.insert(id@, at),
        name_at(final(nodes)@, at as int) == id@,
        kids(final(nodes)@, at as int) == Seq::<usize>::empty(),
        forall|i: int|
            0 <= i < old(nodes).len() ==> final(nodes)@[i] == old(nodes)@[i],
        graph_of(final(nodes)@, final(index)@) == graph_of(old(nodes)@, old(index)@).insert(
            id@,
            Seq::empty(),
        ),
{
    let at = nodes.len();
    let node = TreeNode { name: id.clone(), children: Vec::new() };
    nodes.push(node);
    index.insert(id, at);
    proof {
        let n0 = old(nodes)@;
        let n1 = nodes@;
        let x0 = old(index)@;
        let x1 = index@;
        assert forall|i: int| 0 <= i < n1.len() implies x1.contains_key(
            #[trigger] name_at(n1, i),
        ) && x1[name_at(n1, i)] == i by {
            if i < n0.len() {
                assert(name_at(n1, i) == name_at(n0, i));
            }
        }
        assert forall|i: int| 0 <= i < n1.len() implies in_range(n1, #[trigger] kids(n1, i)) by {
            if i < n0.len() {
                assert(kids(n1, i) == kids(n0, i));
                assert(in_range(n0, kids(n0, i)));
            }
        }
        assert forall|i: int| 0 <= i < n1.len() implies (#[trigger] kids(n1, i)).no_duplicates() by {
            if i < n0.len() {
                assert(kids(n1, i) == kids(n0, i));
            }
        }
        let g0 = graph_of(n0, x0);
        let g1 = graph_of(n1, x1);
        assert forall|k: Seq<char>| g0.insert(id@, Seq::empty()).contains_key(k) implies g1[k]
            == g0.insert(id@, Seq::empty())[k] by {
            if k != id@ {
                let i = x0[k] as int;
                assert(kids(n1, i) == kids(n0, i));
                assert(in_range(n0, kids(n0, i)));
                assert(names(n1, kids(n1, i)) =~= names(n0, kids(n0, i)));
            } else {
                assert(names(n1, kids(n1, at as int)) =~= Seq::<Seq<char>>::empty());
            }
        }
        assert(g1 =~= g0.insert(id@, Seq::empty()));
    }
    at
}

/// Lists `c` as a child of `p`, unless it is listed already.
pub(crate) fn add_child(nodes: &mut Vec<TreeNode>, index: &StringHashMap<usize>, p: usize, c: usize)
    requires
        indexed(old(nodes)@, index@),
        linked(old(nodes)@),
        p < old(nodes).len(),
        c < old(nodes).len(),
    ensures
        indexed(final(nodes)@, index@),
        linked(final(nodes)@),
        final(nodes).len() == old(nodes).len(),
        forall|i: int|
            0 <= i < old(nodes).len() ==> #[trigger] name_at(final(nodes)@, i) == name_at(
                old(nodes)@,
                i,
            ),
        forall|i: int|
            0 <= i < old(nodes).len() && i != p ==> #[trigger] kids(final(nodes)@, i) == kids(
                old(nodes)@,
                i,
            ),
        graph_of(final(nodes)@, index@) == graph_of(old(nodes)@, index@).insert(
            name_at(old(nodes)@, p as int),
            with_child_at(old(nodes)@, index@, p as int, c as int),
        ),
{
    let listed = holds(&nodes[p].children, c);
    if !listed {
        nodes[p].children.push(c);
    }
    proof {
        let n0 = old(nodes)@;
        let n1 = nodes@;
        let x = index@;
        lemma_names_contains(n0, x, kids(n0, p as int), c);
        assert(n1.len() == n0.len());
        assert forall|i: int| 0 <= i < n0.len() implies #[trigger] name_at(n1, i) == name_at(
            n0,
            i,
        ) by {}
        assert forall|i: int| 0 <= i < n0.len() && i != p implies #[trigger] kids(n1, i) == kids(
            n0,
            i,
        ) by {}
        assert forall|i: int| 0 <= i < n1.len() implies x.contains_key(
            #[trigger] name_at(n1, i),
        ) && x[name_at(n1, i)] == i by {
            assert(name_at(n1, i) == name_at(n0, i));
        }
        assert forall|k: Seq<char>| #[trigger] x.contains_key(k) implies x[k] < n1.len()
            && name_at(n1, x[k] as int) == k by {
            assert(name_at(n1, x[k] as int) == name_at(n0, x[k] as int));
        }
        assert forall|i: int| 0 <= i < n1.len() implies in_range(n1, #[trigger] kids(n1, i)) by {
            assert(in_range(n0, kids(n0, i)));
            if i != p {
                assert(kids(n1, i) == kids(n0, i));
            }
        }
        assert forall|i: int| 0 <= i < n1.len() implies (#[trigger] kids(n1, i)).no_duplicates() by {
            assert(kids(n0, i).no_duplicates());
            if i != p {
                assert(kids(n1, i) == kids(n0, i));
            }
        }
        let g0 = graph_of(n0, x);
        let g1 = graph_of(n1, x);
        let pn = name_at(n0, p as int);
        let goal = g0.insert(pn, with_child_at(n0, x, p as int, c as int));
        assert forall|k: Seq<char>| goal.contains_key(k) implies g1[k] == goal[k] by {
            let i = x[k] as int;
            assert(in_range(n0, kids(n0, i)));
            if k != pn {
                assert(i != p);
                assert(kids(n1, i) == kids(n0, i));
                assert(names(n1, kids(n1, i)) =~= names(n0, kids(n0, i)));
            } else {
                assert(i == p);
                assert(names(n1, kids(n1, i)) =~= with_child_at(n0, x, p as int, c as int));
            }
        }
        assert(g1 =~= goal);
    }
}

/// The children of `p` in the graph, with `c` added unless it is there.
pub(crate) open spec fn with_child_at(
    nodes: Seq<TreeNode>,
    index: Map<Seq<char>, usize>,
    p: int,
    c: int,
) -> Seq<Seq<char>> {
    crate::model::with_child(graph_of(nodes, index)[name_at(nodes, p)], name_at(nodes, c))
}

} // verus!
