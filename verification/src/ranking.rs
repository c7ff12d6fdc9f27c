//! Ranks for the nodes of a graph, falling along every edge; there are
//! such ranks exactly where no node is its own descendant.
use vstd::prelude::*;
use crate::arena::{TreeNode, kids, linked, in_range, ranked, indexed, graph_of, name_at};
use crate::model::{ranked_by, acyclic};

verus! {

/// The ranks as natural numbers.
pub(crate) open spec fn as_nats(rank: Seq<usize>) -> Seq<nat> {
    Seq::new(rank.len(), |i: int| rank[i] as nat)
}

/// How many entries stand for "no rank yet".
spec fn unranked(rank: Seq<usize>) -> nat
    decreases rank.len(),
{
    if rank.len() == 0 {
        0
    } else {
        unranked(rank.drop_last()) + if rank.last() == usize::MAX {
            1nat
        } else {
            0nat
        }
    }
}

proof fn lemma_unranked_update(rank: Seq<usize>, i: int, v: usize)
    requires
        0 <= i < rank.len(),
        rank[i] == usize::MAX,
        v != usize::MAX,
    ensures
        unranked(rank.update(i, v)) + 1 == unranked(rank),
    decreases rank.len(),
{
    if i == rank.len() - 1 {
        assert(rank.update(i, v).drop_last() =~= rank.drop_last());
    } else {
        lemma_unranked_update(rank.drop_last(), i, v);
        assert(rank.update(i, v).drop_last() =~= rank.drop_last().update(i, v));
    }
}

/// Where every node without a rank has a child without a rank, no ranks
/// fall along every edge: such a node would have every rank one can name.
proof fn lemma_stuck(nodes: Seq<TreeNode>, stuck: Seq<bool>, rho: Seq<nat>, u: int, bound: nat)
    requires
        linked(nodes),
        ranked(nodes, rho),
        stuck.len() == nodes.len(),
        forall|i: int|
            0 <= i < nodes.len() && stuck[i] ==> exists|j: int|
                0 <= j < kids(nodes, i).len() && stuck[#[trigger] kids(nodes, i)[j] as int],
        0 <= u < nodes.len(),
        stuck[u],
    ensures
        rho[u] >= bound,
    decreases bound,
{
    if bound > 0 {
        let j = choose|j: int| 0 <= j < kids(nodes, u).len() && stuck[#[trigger] kids(nodes, u)[j] as int];
        let c = kids(nodes, u)[j];
        assert(in_range(nodes, kids(nodes, u)));
        lemma_stuck(nodes, stuck, rho, c as int, (bound - 1) as nat);
    }
}

/// Whether the rank of `k` is above the ranks of its children.
spec fn falls(nodes: Seq<TreeNode>, rank: Seq<usize>, k: int) -> bool {
    forall|j: int|
        0 <= j < kids(nodes, k).len() ==> rank[#[trigger] kids(nodes, k)[j] as int] < rank[k]
}

/// Whether `k` has a child without a rank.
spec fn held_back(nodes: Seq<TreeNode>, rank: Seq<usize>, k: int) -> bool {
    exists|j: int|
        0 <= j < kids(nodes, k).len() && rank[#[trigger] kids(nodes, k)[j] as int] == usize::MAX
}

proof fn lemma_unranked_positive(rank: Seq<usize>, i: int)
    requires
        0 <= i < rank.len(),
        rank[i] == usize::MAX,
    ensures
        unranked(rank) >= 1,
    decreases rank.len(),
{
    if i < rank.len() - 1 {
        lemma_unranked_positive(rank.drop_last(), i);
    }
}

proof fn lemma_no_ranks(nodes: Seq<TreeNode>, rank: Seq<usize>, u: int)
    requires
        linked(nodes),
        rank.len() == nodes.len(),
        forall|k: int|
            0 <= k < nodes.len() && rank[k] == usize::MAX ==> #[trigger] held_back(nodes, rank, k),
        0 <= u < nodes.len(),
        rank[u] == usize::MAX,
    ensures
        forall|rho: Seq<nat>| !ranked(nodes, rho),
{
    let stuck = Seq::new(nodes.len(), |i: int| rank[i] == usize::MAX);
    assert forall|i: int| 0 <= i < nodes.len() && stuck[i] implies exists|j: int|
        0 <= j < kids(nodes, i).len() && stuck[#[trigger] kids(nodes, i)[j] as int] by {
        assert(held_back(nodes, rank, i));
        let j = choose|j: int|
            0 <= j < kids(nodes, i).len() && rank[#[trigger] kids(nodes, i)[j] as int]
                == usize::MAX;
        assert(in_range(nodes, kids(nodes, i)));
        assert(stuck[kids(nodes, i)[j] as int]);
    }
    assert forall|rho: Seq<nat>| !ranked(nodes, rho) by {
        if ranked(nodes, rho) {
            lemma_stuck(nodes, stuck, rho, u, rho[u] + 1);
        }
    }
}

fn all_below(children: &Vec<usize>, rank: &Vec<usize>, pass: usize) -> (b: bool)
    requires
        forall|j: int| 0 <= j < children.len() ==> #[trigger] children[j] < rank.len(),
    ensures
        b == forall|j: int| 0 <= j < children.len() ==> rank[#[trigger] children[j] as int] < pass,
{
    let mut j: usize = 0;
    while j < children.len()
        invariant
            j <= children.len(),
            forall|k: int| 0 <= k < children.len() ==> #[trigger] children[k] < rank.len(),
            forall|k: int| 0 <= k < j ==> rank[#[trigger] children[k] as int] < pass,
        decreases children.len() - j,
    {
        if rank[children[j]] >= pass {
            return false;
        }
        j += 1;
    }
    true
}

/// One pass: gives the number `pass` to every node without a rank whose
/// children all have a rank below `pass`. Returns how many it ranked.
fn rank_pass(nodes: &Vec<TreeNode>, rank: &mut Vec<usize>, pass: usize, settled: usize) -> (gained:
    usize)
    requires
        linked(nodes@),
        old(rank).len() == nodes.len(),
        settled + unranked(old(rank)@) == nodes.len(),
        pass <= settled,
        forall|k: int| 0 <= k < nodes.len() ==> old(rank)[k] == usize::MAX || old(rank)[k] < pass,
        forall|k: int|
            0 <= k < nodes.len() && old(rank)[k] != usize::MAX ==> #[trigger] falls(
                nodes@,
                old(rank)@,
                k,
            ),
    ensures
        final(rank).len() == nodes.len(),
        settled + gained + unranked(final(rank)@) == nodes.len(),
        forall|k: int|
            0 <= k < nodes.len() ==> final(rank)[k] == usize::MAX || final(rank)[k] <= pass,
        forall|k: int|
            0 <= k < nodes.len() && final(rank)[k] != usize::MAX ==> #[trigger] falls(
                nodes@,
                final(rank)@,
                k,
            ),
        gained == 0 ==> final(rank)@ == old(rank)@,
        gained == 0 ==> forall|k: int|
            0 <= k < nodes.len() && final(rank)[k] == usize::MAX ==> #[trigger] held_back(
                nodes@,
                final(rank)@,
                k,
            ),
{
    let n = nodes.len();
    let mut gained: usize = 0;
    let mut i: usize = 0;
    while i < n
        invariant
            i <= n,
            n == nodes.len(),
            rank.len() == n,
            linked(nodes@),
            settled + gained + unranked(rank@) == n,
            pass <= settled,
            forall|k: int| 0 <= k < n ==> rank[k] == usize::MAX || rank[k] <= pass,
            gained == 0 ==> rank@ == old(rank)@,
            forall|k: int| 0 <= k < n ==> old(rank)[k] == usize::MAX || old(rank)[k] < pass,
            forall|k: int| 0 <= k < n && rank[k] != usize::MAX ==> #[trigger] falls(nodes@, rank@, k),
            gained == 0 ==> forall|k: int|
                0 <= k < i && rank[k] == usize::MAX ==> #[trigger] held_back(nodes@, rank@, k),
        decreases n - i,
    {
        if rank[i] == usize::MAX {
            assert(in_range(nodes@, kids(nodes@, i as int)));
            let free = all_below(&nodes[i].children, rank, pass);
            if free {
                let ghost r0 = rank@;
                proof {
                    lemma_unranked_positive(r0, i as int);
                    lemma_unranked_update(r0, i as int, pass);
                }
                rank.set(i, pass);
                gained += 1;
                assert forall|k: int| 0 <= k < n && rank[k] != usize::MAX implies #[trigger] falls(
                    nodes@,
                    rank@,
                    k,
                ) by {
                    if k != i {
                        assert(falls(nodes@, r0, k));
                    }
                }
            } else {
                proof {
                    if gained == 0 {
                        let j = choose|j: int|
                            0 <= j < nodes[i as int].children.len() && !(rank[#[trigger] nodes[i as int].children[j] as int]
                                < pass);
                        assert(rank[kids(nodes@, i as int)[j] as int] == usize::MAX);
                        assert(held_back(nodes@, rank@, i as int));
                    }
                }
            }
        }
        i += 1;
    }
    gained
}

/// Ranks that fall along every edge, if there are any.
///
/// Works in passes: a pass gives its number to every node whose children
/// all got theirs in an earlier pass. When a pass ranks no node, the nodes
/// left without a rank each have a child without one.
pub(crate) fn rank_nodes(nodes: &Vec<TreeNode>) -> (r: Option<Vec<usize>>)
    requires
        linked(nodes@),
    ensures
        match r {
            Some(rank) => ranked(nodes@, as_nats(rank@)),
            None => forall|rho: Seq<nat>| !ranked(nodes@, rho),
        },
{
    let n = nodes.len();
    let mut rank: Vec<usize> = Vec::new();
    let mut i: usize = 0;
    while i < n
        invariant
            i <= n,
            rank.len() == i,
            unranked(rank@) == i,
            forall|k: int| 0 <= k < i ==> rank[k] == usize::MAX,
        decreases n - i,
    {
        let ghost before = rank@;
        rank.push(usize::MAX);
        assert(rank@.drop_last() == before);
        i += 1;
    }
    let mut pass: usize = 0;
    let mut settled: usize = 0;
    let mut progress = true;
    while progress
        invariant
            n == nodes.len(),
            rank.len() == n,
            linked(nodes@),
            settled + unranked(rank@) == n,
            pass <= settled,
            forall|k: int| 0 <= k < n ==> rank[k] == usize::MAX || rank[k] < pass,
            forall|k: int| 0 <= k < n && rank[k] != usize::MAX ==> #[trigger] falls(nodes@, rank@, k),
            !progress ==> forall|k: int|
                0 <= k < n && rank[k] == usize::MAX ==> #[trigger] held_back(nodes@, rank@, k),
        decreases unranked(rank@), if progress { 1nat } else { 0nat },
    {
        let gained = rank_pass(nodes, &mut rank, pass, settled);
        if gained > 0 {
            settled += gained;
            pass += 1;
        } else {
            progress = false;
        }
    }
    let mut k: usize = 0;
    while k < n
        invariant
            k <= n,
            n == nodes.len(),
            rank.len() == n,
            linked(nodes@),
            forall|i: int| 0 <= i < k ==> rank[i] != usize::MAX,
            forall|i: int| 0 <= i < n && rank[i] != usize::MAX ==> #[trigger] falls(nodes@, rank@, i),
            forall|i: int|
                0 <= i < n && rank[i] == usize::MAX ==> #[trigger] held_back(nodes@, rank@, i),
        decreases n - k,
    {
        if rank[k] == usize::MAX {
            proof {
                lemma_no_ranks(nodes@, rank@, k as int);
            }
            return None;
        }
        k += 1;
    }
    proof {
        let rho = as_nats(rank@);
        assert forall|i: int, j: int| 0 <= i < nodes@.len() && 0 <= j < kids(nodes@, i).len() implies rho[#[trigger] kids(
            nodes@,
            i,
        )[j] as int] < rho[i] by {
            assert(falls(nodes@, rank@, i));
            assert(in_range(nodes@, kids(nodes@, i)));
        }
    }
    Some(rank)
}

/// Ranks of the nodes are ranks of the graph.
pub(crate) proof fn lemma_ranks_to_graph(
    nodes: Seq<TreeNode>,
    index: Map<Seq<char>, usize>,
    rho: Seq<nat>,
)
    requires
        indexed(nodes, index),
        linked(nodes),
        ranked(nodes, rho),
    ensures
        acyclic(graph_of(nodes, index)),
{
    let graph = graph_of(nodes, index);
    let rank = Map::new(|k: Seq<char>| index.contains_key(k), |k: Seq<char>| rho[index[k] as int]);
    assert forall|p: Seq<char>, k: int| graph.contains_key(p) && 0 <= k < graph[p].len() implies rank[#[trigger] graph[p][k]]
        < rank[p] by {
        let i = index[p] as int;
        let c = kids(nodes, i)[k];
        assert(in_range(nodes, kids(nodes, i)));
        assert(graph[p][k] == name_at(nodes, c as int));
        assert(index[name_at(nodes, c as int)] == c);
    }
    assert(ranked_by(graph, rank));
}

/// Ranks of the graph are ranks of the nodes.
pub(crate) proof fn lemma_graph_to_ranks(
    nodes: Seq<TreeNode>,
    index: Map<Seq<char>, usize>,
)
    requires
        indexed(nodes, index),
        linked(nodes),
        acyclic(graph_of(nodes, index)),
    ensures
        exists|rho: Seq<nat>| ranked(nodes, rho),
{
    let graph = graph_of(nodes, index);
    let rank = choose|rank: Map<Seq<char>, nat>| ranked_by(graph, rank);
    let rho = Seq::new(nodes.len(), |i: int| rank[name_at(nodes, i)]);
    assert forall|i: int, j: int| 0 <= i < nodes.len() && 0 <= j < kids(nodes, i).len() implies rho[#[trigger] kids(
        nodes,
        i,
    )[j] as int] < rho[i] by {
        let p = name_at(nodes, i);
        assert(index.contains_key(p) && index[p] == i);
        assert(in_range(nodes, kids(nodes, i)));
        assert(graph[p][j] == name_at(nodes, kids(nodes, i)[j] as int));
    }
    assert(ranked(nodes, rho));
}

} // verus!
