//! What holds of the parser, whatever the dump.
use vstd::prelude::*;
use crate::text::{line_depth, package_part, lines};
use crate::package_id::identity;
use crate::model::{ParserModel, TreeModel, ParseError, initial, close_tree, place, step, run, with_child, first_occurrences, workspace, parse, children_distinct, closed, ranked_by, acyclic, descends};

verus! {

/// Reading one more line is one more step.
pub proof fn lemma_run_step(st: ParserModel, all: Seq<Seq<char>>, i: int)
    requires
        0 <= i < all.len(),
    ensures
        run(st, all.take(i + 1)) == match run(st, all.take(i)) {
            Ok(before) => step(before, all[i]),
            Err(e) => Err(e),
        },
{
    assert(all.take(i + 1).drop_last() == all.take(i));
}

/// A failure ends the dump: the lines after it do not count.
pub proof fn lemma_run_error_sticks(st: ParserModel, all: Seq<Seq<char>>, i: int)
    requires
        0 <= i <= all.len(),
        run(st, all.take(i)) is Err,
    ensures
        run(st, all) == run(st, all.take(i)),
    decreases all.len() - i,
{
    if i < all.len() {
        lemma_run_step(st, all, i);
        lemma_run_error_sticks(st, all, i + 1);
    } else {
        assert(all.take(i) == all);
    }
}

/// Law. A line that names one of its open ancestors is passed over: it is
/// no failure, it adds no node, no child and no root, and it leaves no more
/// ancestors open than there were.
pub proof fn lemma_ancestor_is_passed_over(st: ParserModel, line: Seq<char>)
    requires
        line.len() > 0,
        line_depth(line) is Some,
        line_depth(line)->0 <= st.stack.len(),
        identity(package_part(line)) is Some,
        st.stack.take(line_depth(line)->0 as int).contains(identity(package_part(line))->0),
    ensures
        step(st, line) matches Ok(next) && next.graph == st.graph && next.roots == st.roots
            && next.stack == st.stack.take(line_depth(line)->0 as int) && next.stack.len()
            <= st.stack.len(),
{
    let depth = line_depth(line)->0;
    let id = identity(package_part(line))->0;
    let open = st.stack.take(depth as int);
    if depth == 0 {
        let j = choose|j: int| 0 <= j < open.len() && open[j] == id;
        assert(false);
    }
}

/// Entries that are all different are their own first occurrences.
pub proof fn lemma_first_occurrences_of_distinct(s: Seq<Seq<char>>)
    requires
        s.no_duplicates(),
    ensures
        first_occurrences(s) == s,
    decreases s.len(),
{
    if s.len() > 0 {
        let before = s.drop_last();
        lemma_first_occurrences_of_distinct(before);
        if before.contains(s.last()) {
            let j = choose|j: int| 0 <= j < before.len() && before[j] == s.last();
            assert(s[j] == s[s.len() - 1]);
        }
        assert(before.push(s.last()) == s);
    }
}

/// Law. Where the trees of a dump have several roots, all different, the
/// root of the whole is the node `workspace`, its children are these roots,
/// as many as there are and in the order in which their trees ended, and
/// every other node is as the dump has it.
pub proof fn lemma_workspace_joins_roots(text: Seq<char>, tree: TreeModel)
    requires
        parse(text) == Ok::<TreeModel, ParseError>(tree),
        close_tree(run(initial(), lines(text))->Ok_0).roots.len() > 1,
        close_tree(run(initial(), lines(text))->Ok_0).roots.no_duplicates(),
    ensures
        tree.root == workspace(),
        tree.graph[workspace()] == close_tree(run(initial(), lines(text))->Ok_0).roots,
        forall|id: Seq<char>|
            id != workspace() ==> tree.graph.contains_key(id) == run(
                initial(),
                lines(text),
            )->Ok_0.graph.contains_key(id) && tree.graph[id] == run(
                initial(),
                lines(text),
            )->Ok_0.graph[id],
{
    let st = run(initial(), lines(text))->Ok_0;
    lemma_first_occurrences_of_distinct(close_tree(st).roots);
}

/// What holds of the parser between any two lines: there are finitely many
/// nodes, the open ancestors and the roots are nodes and so is every child, no ancestor is open twice, no
/// child is listed twice, and every identity holds a space.
pub open spec fn consistent(st: ParserModel) -> bool {
    &&& st.graph.dom().finite()
    &&& forall|j: int| 0 <= j < st.stack.len() ==> st.graph.contains_key(#[trigger] st.stack[j])
    &&& forall|j: int| 0 <= j < st.roots.len() ==> st.graph.contains_key(#[trigger] st.roots[j])
    &&& st.stack.no_duplicates()
    &&& closed(st.graph)
    &&& children_distinct(st.graph)
    &&& forall|id: Seq<char>| #[trigger] st.graph.contains_key(id) ==> id.contains(' ')
}

proof fn lemma_place_keeps_consistent(st: ParserModel, depth: nat, id: Seq<char>)
    requires
        consistent(st),
        depth <= st.stack.len(),
        id.contains(' '),
    ensures
        consistent(place(st, depth, id)),
{
    let open = st.stack.take(depth as int);
    let next = place(st, depth, id);
    assert forall|j: int| 0 <= j < open.len() implies st.graph.contains_key(#[trigger] open[j]) by {
        assert(open[j] == st.stack[j]);
    }
    assert(open.no_duplicates());
    if depth == 0 && st.graph.contains_key(id) {
        assert forall|j: int| 0 <= j < next.roots.len() implies next.graph.contains_key(
            #[trigger] next.roots[j],
        ) by {
            if j < st.roots.len() {
                assert(next.roots[j] == st.roots[j]);
            }
        }
    } else if open.contains(id) {
    } else {
        let known = if st.graph.contains_key(id) {
            st.graph
        } else {
            st.graph.insert(id, Seq::empty())
        };
        assert(forall|k: Seq<char>| known.contains_key(k) <==> st.graph.contains_key(k) || k == id);
        assert forall|p: Seq<char>, k: int|
            known.contains_key(p) && 0 <= k < known[p].len() implies st.graph.contains_key(
            #[trigger] known[p][k],
        ) by {
            assert(st.graph.contains_key(p));
            assert(known[p] == st.graph[p]);
            assert(st.graph.contains_key(st.graph[p][k]));
        }
        assert forall|p: Seq<char>| known.contains_key(p) implies (#[trigger] known[p]).no_duplicates() by {
            if st.graph.contains_key(p) {
                assert(st.graph[p].no_duplicates());
            }
        }
        assert(forall|k: Seq<char>| next.graph.contains_key(k) <==> known.contains_key(k)) by {
            if depth > 0 {
                assert(open.last() == open[depth - 1]);
                assert(known.contains_key(open.last()));
            }
        }
        assert forall|p: Seq<char>, k: int|
            next.graph.contains_key(p) && 0 <= k < next.graph[p].len() implies next.graph.contains_key(
            #[trigger] next.graph[p][k],
        ) by {
            if depth > 0 && p == open.last() {
                let was = known[p];
                if !was.contains(id) && k == was.len() {
                } else {
                    assert(next.graph[p][k] == was[k]);
                    assert(st.graph.contains_key(known[p][k]));
                }
            } else {
                assert(next.graph[p] == known[p]);
                assert(st.graph.contains_key(known[p][k]));
            }
        }
        assert forall|p: Seq<char>| next.graph.contains_key(p) implies (#[trigger] next.graph[p]).no_duplicates() by {
            assert(known[p].no_duplicates());
            if depth > 0 && p == open.last() {
                let was = known[p];
                if !was.contains(id) {
                    assert forall|a: int, b: int|
                        0 <= a < was.push(id).len() && 0 <= b < was.push(id).len() && a
                            != b implies was.push(id)[a] != was.push(id)[b] by {
                        if a < was.len() && b < was.len() {
                        } else if a < was.len() {
                            assert(was[a] != id);
                        } else {
                            assert(was[b] != id);
                        }
                    }
                }
            } else {
                assert(next.graph[p] == known[p]);
            }
        }
        assert forall|j: int| 0 <= j < next.stack.len() implies next.graph.contains_key(
            #[trigger] next.stack[j],
        ) by {
            if j < open.len() {
                assert(next.stack[j] == open[j]);
            }
        }
        assert forall|a: int, b: int|
            0 <= a < next.stack.len() && 0 <= b < next.stack.len() && a != b implies next.stack[a]
            != next.stack[b] by {
            if a < open.len() && b < open.len() {
            } else if a < open.len() {
                assert(open[a] != id);
            } else {
                assert(open[b] != id);
            }
        }
        assert forall|j: int| 0 <= j < next.roots.len() implies next.graph.contains_key(
            #[trigger] next.roots[j],
        ) by {
            assert(st.graph.contains_key(st.roots[j]));
        }
    }
}

/// Invariant. A line keeps the parser consistent.
pub proof fn lemma_step_keeps_consistent(st: ParserModel, line: Seq<char>)
    requires
        consistent(st),
        step(st, line) is Ok,
    ensures
        consistent(step(st, line)->Ok_0),
{
    if line.len() == 0 {
        let next = close_tree(st);
        assert forall|j: int| 0 <= j < next.roots.len() implies next.graph.contains_key(
            #[trigger] next.roots[j],
        ) by {
            if j < st.roots.len() {
                assert(next.roots[j] == st.roots[j]);
            } else {
                assert(next.roots[j] == st.stack[0]);
            }
        }
    } else if line_depth(line)->0 <= st.stack.len() {
        crate::package_id::lemma_identity_has_space(package_part(line));
        lemma_place_keeps_consistent(
            st,
            line_depth(line)->0,
            identity(package_part(line))->0,
        );
    }
}

/// Invariant. The parser is consistent after any lines that it accepts.
/// No dump names a node `workspace`: the parser alone makes that one.
pub proof fn lemma_run_is_consistent(all: Seq<Seq<char>>)
    requires
        run(initial(), all) is Ok,
    ensures
        consistent(run(initial(), all)->Ok_0),
        !run(initial(), all)->Ok_0.graph.contains_key(workspace()),
    decreases all.len(),
{
    if all.len() > 0 {
        lemma_run_is_consistent(all.drop_last());
        lemma_step_keeps_consistent(run(initial(), all.drop_last())->Ok_0, all.last());
    }
    if workspace().contains(' ') {
        let j = choose|j: int| 0 <= j < workspace().len() && workspace()[j] == ' ';
        assert(false);
    }
}

/// The depth that line `i` declares.
pub open spec fn depth_at(all: Seq<Seq<char>>, i: int) -> nat {
    line_depth(all[i])->0
}

/// The identity that line `i` names.
pub open spec fn id_at(all: Seq<Seq<char>>, i: int) -> Seq<char> {
    identity(package_part(all[i]))->0
}

/// The identities from the root down to line `i`: those of the line
/// before it, as far as the depth of line `i` goes, and its own.
pub open spec fn path(all: Seq<Seq<char>>, i: int) -> Seq<Seq<char>>
    decreases i,
{
    if i <= 0 {
        seq![id_at(all, 0)]
    } else {
        path(all, i - 1).take(depth_at(all, i) as int).push(id_at(all, i))
    }
}

/// The ancestors of line `i`, the root first.
pub open spec fn ancestors(all: Seq<Seq<char>>, i: int) -> Seq<Seq<char>> {
    path(all, i - 1).take(depth_at(all, i) as int)
}

/// The last line up to `i` that declares `depth`; `-1` if there is none.
pub open spec fn last_at_depth(all: Seq<Seq<char>>, i: int, depth: nat) -> int
    decreases i + 1,
{
    if i < 0 {
        -1
    } else if depth_at(all, i) == depth {
        i
    } else {
        last_at_depth(all, i - 1, depth)
    }
}

/// The parent that the depths give line `i`: the identity of the last line
/// before it that is one level up.
pub open spec fn parent_at(all: Seq<Seq<char>>, i: int) -> Seq<char> {
    id_at(all, last_at_depth(all, i - 1, (depth_at(all, i) - 1) as nat))
}

/// Whether a line names an identity at a depth.
pub open spec fn names_a_node(line: Seq<char>) -> bool {
    &&& line.len() > 0
    &&& line_depth(line) is Some
    &&& identity(package_part(line)) is Some
}

/// A dump of one tree in which the parser finds every line in its place:
/// every line names an identity at a depth, the first at depth 0, and every
/// other at a depth from 1 to one more than that of the line before it.
pub open spec fn plain(all: Seq<Seq<char>>) -> bool {
    &&& all.len() > 0
    &&& forall|i: int| 0 <= i < all.len() ==> names_a_node(#[trigger] all[i])
    &&& depth_at(all, 0) == 0
    &&& forall|i: int|
        1 <= i < all.len() ==> 1 <= #[trigger] depth_at(all, i) <= depth_at(all, i - 1) + 1
}

/// Whether `rank` falls from the parent that the depths give a line to the
/// identity that the line names, for every line but the first.
pub open spec fn falls_along_lines(all: Seq<Seq<char>>, rank: Map<Seq<char>, nat>) -> bool {
    forall|i: int| 1 <= i < all.len() ==> rank[id_at(all, i)] < rank[#[trigger] parent_at(all, i)]
}

/// Whether the lines of a dump make no identity its own descendant: some
/// rank falls along them.
pub open spec fn acyclic_lines(all: Seq<Seq<char>>) -> bool {
    exists|rank: Map<Seq<char>, nat>| falls_along_lines(all, rank)
}

/// Whether one of the first `n` lines names `child` with the parent `parent`.
pub open spec fn implied(all: Seq<Seq<char>>, n: int, parent: Seq<char>, child: Seq<char>) -> bool {
    exists|i: int| 1 <= i < n && #[trigger] parent_at(all, i) == parent && id_at(all, i) == child
}

/// The identities that the first `k` lines name.
pub open spec fn named(all: Seq<Seq<char>>, k: int) -> Set<Seq<char>> {
    Set::new(|id: Seq<char>| exists|i: int| 0 <= i < k && #[trigger] id_at(all, i) == id)
}

proof fn lemma_path_len(all: Seq<Seq<char>>, i: int)
    requires
        plain(all),
        0 <= i < all.len(),
    ensures
        path(all, i).len() == depth_at(all, i) + 1,
    decreases i,
{
    if i > 0 {
        lemma_path_len(all, i - 1);
    }
}

/// The entry of a path at a depth is the identity of the last line that
/// declared this depth.
proof fn lemma_path_entry(all: Seq<Seq<char>>, i: int, depth: nat)
    requires
        plain(all),
        0 <= i < all.len(),
        depth <= depth_at(all, i),
    ensures
        0 <= last_at_depth(all, i, depth) <= i,
        path(all, i)[depth as int] == id_at(all, last_at_depth(all, i, depth)),
    decreases i,
{
    lemma_path_len(all, i);
    if i > 0 {
        lemma_path_len(all, i - 1);
        if depth < depth_at(all, i) {
            lemma_path_entry(all, i - 1, depth);
        }
    }
}

/// Along a path the rank falls from every entry to the next.
proof fn lemma_path_link(all: Seq<Seq<char>>, rank: Map<Seq<char>, nat>, i: int, depth: nat)
    requires
        plain(all),
        falls_along_lines(all, rank),
        0 <= i < all.len(),
        1 <= depth <= depth_at(all, i),
    ensures
        rank[path(all, i)[depth as int]] < rank[path(all, i)[depth - 1]],
    decreases i,
{
    lemma_path_len(all, i);
    if i > 0 {
        lemma_path_len(all, i - 1);
        if depth < depth_at(all, i) {
            lemma_path_link(all, rank, i - 1, depth);
        } else {
            lemma_path_entry(all, i - 1, (depth - 1) as nat);
            assert(path(all, i)[depth - 1] == parent_at(all, i));
            assert(rank[id_at(all, i)] < rank[parent_at(all, i)]);
        }
    } else {
        assert(false);
    }
}

/// Along a path the rank falls from every entry to every later one.
proof fn lemma_path_falls(
    all: Seq<Seq<char>>,
    rank: Map<Seq<char>, nat>,
    i: int,
    upper: nat,
    lower: nat,
)
    requires
        plain(all),
        falls_along_lines(all, rank),
        0 <= i < all.len(),
        upper < lower <= depth_at(all, i),
    ensures
        rank[path(all, i)[lower as int]] < rank[path(all, i)[upper as int]],
    decreases lower - upper,
{
    lemma_path_link(all, rank, i, lower);
    if upper + 1 < lower {
        lemma_path_falls(all, rank, i, upper, (lower - 1) as nat);
    }
}

/// Where the lines make no identity its own descendant, no line names one
/// of its ancestors.
pub proof fn lemma_no_ancestor_is_named(all: Seq<Seq<char>>, i: int)
    requires
        plain(all),
        acyclic_lines(all),
        1 <= i < all.len(),
    ensures
        !ancestors(all, i).contains(id_at(all, i)),
{
    let up = ancestors(all, i);
    let id = id_at(all, i);
    if up.contains(id) {
        let rank = choose|rank: Map<Seq<char>, nat>| falls_along_lines(all, rank);
        let e = choose|e: int| 0 <= e < up.len() && up[e] == id;
        lemma_path_len(all, i - 1);
        lemma_path_len(all, i);
        assert(1 <= depth_at(all, i) <= depth_at(all, i - 1) + 1);
        assert(path(all, i)[e] == id);
        assert(path(all, i)[depth_at(all, i) as int] == id);
        lemma_path_falls(all, rank, i, e as nat, depth_at(all, i));
    }
}

/// What the parser holds after the first `k` lines of a plain dump whose
/// root it did not know in the state `from`, in which no ancestor was open.
spec fn grown(from: ParserModel, all: Seq<Seq<char>>, k: int, st: ParserModel) -> bool {
    &&& st.stack == path(all, k - 1)
    &&& st.roots == from.roots
    &&& st.graph.dom() == from.graph.dom() + named(all, k)
    &&& forall|j: int| 0 <= j < st.stack.len() ==> st.graph.contains_key(#[trigger] st.stack[j])
    &&& forall|i: int|
        1 <= i < k ==> st.graph.contains_key(#[trigger] parent_at(all, i)) && st.graph[parent_at(
            all,
            i,
        )].contains(id_at(all, i))
    &&& forall|p: Seq<char>, c: int|
        st.graph.contains_key(p) && 0 <= c < st.graph[p].len() ==> implied(
            all,
            k,
            p,
            #[trigger] st.graph[p][c],
        ) || (from.graph.contains_key(p) && from.graph[p].contains(st.graph[p][c]))
    &&& forall|p: Seq<char>, c: int|
        from.graph.contains_key(p) && 0 <= c < from.graph[p].len() ==> st.graph.contains_key(p)
            && st.graph[p].contains(#[trigger] from.graph[p][c])
}

proof fn lemma_plain_run(from: ParserModel, all: Seq<Seq<char>>, k: int)
    requires
        plain(all),
        acyclic_lines(all),
        from.stack.len() == 0,
        !from.graph.contains_key(id_at(all, 0)),
        1 <= k <= all.len(),
    ensures
        run(from, all.take(k)) matches Ok(st) && grown(from, all, k, st),
    decreases k,
{
    lemma_run_step(from, all, k - 1);
    assert(names_a_node(all[k - 1]));
    let id = id_at(all, k - 1);
    let depth = depth_at(all, k - 1);
    if k == 1 {
        assert(all.take(0) =~= Seq::<Seq<char>>::empty());
        let st = step(from, all[0])->Ok_0;
        assert(from.stack.take(0) =~= Seq::<Seq<char>>::empty());
        assert(st.stack =~= path(all, 0));
        assert(st.graph.dom() =~= from.graph.dom() + named(all, 1)) by {
            assert(id_at(all, 0) == id);
        }
        assert forall|p: Seq<char>, c: int|
            st.graph.contains_key(p) && 0 <= c < st.graph[p].len() implies implied(
            all,
            k,
            p,
            #[trigger] st.graph[p][c],
        ) || (from.graph.contains_key(p) && from.graph[p].contains(st.graph[p][c])) by {
            assert(p != id);
            assert(from.graph[p][c] == st.graph[p][c]);
        }
        assert forall|p: Seq<char>, c: int|
            from.graph.contains_key(p) && 0 <= c < from.graph[p].len() implies st.graph.contains_key(
            p,
        ) && st.graph[p].contains(#[trigger] from.graph[p][c]) by {
            assert(p != id);
            assert(st.graph[p][c] == from.graph[p][c]);
        }
    } else {
        lemma_plain_run(from, all, k - 1);
        let before = run(from, all.take(k - 1))->Ok_0;
        lemma_path_len(all, k - 2);
        assert(1 <= depth_at(all, k - 1) <= depth_at(all, k - 2) + 1);
        let open = before.stack.take(depth as int);
        assert(open == ancestors(all, k - 1));
        lemma_no_ancestor_is_named(all, k - 1);
        let st = place(before, depth, id);
        assert(step(before, all[k - 1]) == Ok::<ParserModel, ParseError>(st));
        let parent = open.last();
        assert(parent == before.stack[depth - 1]);
        assert(before.graph.contains_key(parent));
        lemma_path_entry(all, k - 2, (depth - 1) as nat);
        assert(parent == parent_at(all, k - 1));
        assert(st.stack =~= path(all, k - 1));
        let known = if before.graph.contains_key(id) {
            before.graph
        } else {
            before.graph.insert(id, Seq::empty())
        };
        assert(st.graph.dom() =~= from.graph.dom() + named(all, k)) by {
            assert forall|x: Seq<char>| named(all, k).contains(x) implies st.graph.dom().contains(
                x,
            ) by {
                let i = choose|i: int| 0 <= i < k && #[trigger] id_at(all, i) == x;
                if i < k - 1 {
                    assert(named(all, k - 1).contains(x));
                }
            }
            assert forall|x: Seq<char>| st.graph.dom().contains(x) implies (from.graph.dom() + named(
                all,
                k,
            )).contains(x) by {
                if x == id {
                    assert(id_at(all, k - 1) == x);
                } else {
                    assert(before.graph.dom().contains(x));
                    if named(all, k - 1).contains(x) {
                        let i = choose|i: int| 0 <= i < k - 1 && #[trigger] id_at(all, i) == x;
                        assert(id_at(all, i) == x);
                    }
                }
            }
        }
        assert forall|j: int| 0 <= j < st.stack.len() implies st.graph.contains_key(
            #[trigger] st.stack[j],
        ) by {
            if j < depth {
                assert(st.stack[j] == before.stack[j]);
                assert(before.graph.contains_key(before.stack[j]));
            }
        }
        assert forall|i: int| 1 <= i < k implies st.graph.contains_key(
            #[trigger] parent_at(all, i),
        ) && st.graph[parent_at(all, i)].contains(id_at(all, i)) by {
            if i < k - 1 {
                let p = parent_at(all, i);
                assert(before.graph.contains_key(p) && before.graph[p].contains(id_at(all, i)));
                if p == parent {
                    let old_children = before.graph[p];
                    let j = choose|j: int|
                        0 <= j < old_children.len() && old_children[j] == id_at(all, i);
                    assert(with_child(known[p], id)[j] == id_at(all, i));
                }
            } else {
                let listed = with_child(known[parent], id);
                if known[parent].contains(id) {
                } else {
                    assert(listed[listed.len() - 1] == id);
                }
            }
        }
        assert forall|p: Seq<char>, c: int|
            st.graph.contains_key(p) && 0 <= c < st.graph[p].len() implies implied(
            all,
            k,
            p,
            #[trigger] st.graph[p][c],
        ) || (from.graph.contains_key(p) && from.graph[p].contains(st.graph[p][c])) by {
            if p == parent && !known[parent].contains(id) && c == known[parent].len() {
                assert(parent_at(all, k - 1) == p && id_at(all, k - 1) == st.graph[p][c]);
            } else {
                assert(before.graph.contains_key(p));
                assert(st.graph[p][c] == before.graph[p][c]);
                if implied(all, k - 1, p, before.graph[p][c]) {
                    let i = choose|i: int|
                        1 <= i < k - 1 && #[trigger] parent_at(all, i) == p && id_at(all, i)
                            == before.graph[p][c];
                    assert(parent_at(all, i) == p && id_at(all, i) == st.graph[p][c]);
                }
            }
        }
        assert forall|p: Seq<char>, c: int|
            from.graph.contains_key(p) && 0 <= c < from.graph[p].len() implies st.graph.contains_key(
            p,
        ) && st.graph[p].contains(#[trigger] from.graph[p][c]) by {
            let x = from.graph[p][c];
            assert(before.graph.contains_key(p) && before.graph[p].contains(x));
            let j = choose|j: int| 0 <= j < before.graph[p].len() && before.graph[p][j] == x;
            assert(known[p] == before.graph[p]);
            if p == parent {
                assert(with_child(known[p], id)[j] == x);
            }
            assert(st.graph[p][j] == x);
        }
    }
}

/// Law. A plain dump of one tree whose lines make no identity its own
/// descendant yields a tree. Its root is the identity of the first line;
/// its nodes are the identities that the lines name, as many as there are
/// different ones; every line but the first is listed, once, as a child of
/// the parent that the depths give it; and nothing else is listed.
pub proof fn lemma_plain_dump(text: Seq<char>)
    requires
        plain(lines(text)),
        acyclic_lines(lines(text)),
    ensures
        parse(text) matches Ok(tree) && {
            &&& tree.wf()
            &&& tree.root == id_at(lines(text), 0)
            &&& tree.graph.dom() == named(lines(text), lines(text).len() as int)
            &&& tree.graph.dom().len() == named(lines(text), lines(text).len() as int).len()
            &&& forall|i: int|
                1 <= i < lines(text).len() ==> {
                    &&& tree.graph.contains_key(#[trigger] parent_at(lines(text), i))
                    &&& tree.graph[parent_at(lines(text), i)].contains(id_at(lines(text), i))
                    &&& tree.graph[parent_at(lines(text), i)].no_duplicates()
                }
            &&& forall|p: Seq<char>, c: int|
                tree.graph.contains_key(p) && 0 <= c < tree.graph[p].len() ==> implied(
                    lines(text),
                    lines(text).len() as int,
                    p,
                    #[trigger] tree.graph[p][c],
                )
        },
{
    let all = lines(text);
    lemma_plain_run(initial(), all, all.len() as int);
    assert(all.take(all.len() as int) == all);
    let st = run(initial(), all)->Ok_0;
    assert(st.graph.dom() =~= named(all, all.len() as int));
    assert forall|p: Seq<char>, c: int|
        st.graph.contains_key(p) && 0 <= c < st.graph[p].len() implies implied(
        all,
        all.len() as int,
        p,
        #[trigger] st.graph[p][c],
    ) by {}
    lemma_path_len(all, all.len() - 1);
    assert(close_tree(st).roots =~= seq![st.stack[0]]);
    lemma_path_entry(all, all.len() - 1, 0);
    lemma_first_line_is_root(all, all.len() - 1);
    let rank = choose|rank: Map<Seq<char>, nat>| falls_along_lines(all, rank);
    assert forall|p: Seq<char>, c: int|
        st.graph.contains_key(p) && 0 <= c < st.graph[p].len() implies rank[#[trigger] st.graph[p][c]]
        < rank[p] by {
        assert(implied(all, all.len() as int, p, st.graph[p][c]));
        let i = choose|i: int|
            1 <= i < all.len() && #[trigger] parent_at(all, i) == p && id_at(all, i)
                == st.graph[p][c];
        assert(rank[id_at(all, i)] < rank[parent_at(all, i)]);
    }
    assert(ranked_by(st.graph, rank));
    let tree = parse(text)->Ok_0;
    lemma_parse_gives_a_tree(text, tree);
    assert forall|i: int| 1 <= i < all.len() implies (#[trigger] tree.graph[parent_at(all, i)]).no_duplicates() by {
        assert(tree.graph.contains_key(parent_at(all, i)));
    }
}

proof fn lemma_first_line_is_root(all: Seq<Seq<char>>, i: int)
    requires
        plain(all),
        0 <= i < all.len(),
    ensures
        last_at_depth(all, i, 0) == 0,
    decreases i,
{
    if i > 0 {
        lemma_first_line_is_root(all, i - 1);
    }
}

proof fn lemma_rank_falls_along(
    graph: Map<Seq<char>, Seq<Seq<char>>>,
    rank: Map<Seq<char>, nat>,
    path: Seq<Seq<char>>,
    j: int,
)
    requires
        ranked_by(graph, rank),
        descends(graph, path),
        1 <= j < path.len(),
    ensures
        rank[path[j]] < rank[path[0]],
    decreases j,
{
    let p = path[j - 1];
    assert(graph.contains_key(p) && graph[p].contains(path[j]));
    let k = choose|k: int| 0 <= k < graph[p].len() && graph[p][k] == path[j];
    assert(rank[graph[p][k]] < rank[p]);
    if j > 1 {
        lemma_rank_falls_along(graph, rank, path, j - 1);
    }
}

/// Law. In a graph that has ranks falling along its edges no node is its
/// own descendant: no way from child to child leads back to where it began.
pub proof fn lemma_no_node_below_itself(graph: Map<Seq<char>, Seq<Seq<char>>>, path: Seq<Seq<char>>)
    requires
        acyclic(graph),
        descends(graph, path),
        path.len() >= 2,
    ensures
        path.first() != path.last(),
{
    let rank = choose|rank: Map<Seq<char>, nat>| ranked_by(graph, rank);
    lemma_rank_falls_along(graph, rank, path, path.len() - 1);
}

/// The first occurrences of the entries of `s` are these entries, each once.
pub proof fn lemma_first_occurrences(s: Seq<Seq<char>>)
    ensures
        first_occurrences(s).no_duplicates(),
        forall|x: Seq<char>| first_occurrences(s).contains(x) <==> s.contains(x),
    decreases s.len(),
{
    if s.len() > 0 {
        let before = s.drop_last();
        let was = first_occurrences(before);
        let now = first_occurrences(s);
        lemma_first_occurrences(before);
        assert forall|x: Seq<char>| now.contains(x) <==> s.contains(x) by {
            if now.contains(x) {
                let j = choose|j: int| 0 <= j < now.len() && now[j] == x;
                if j < was.len() {
                    assert(was[j] == x);
                    assert(was.contains(x));
                    assert(before.contains(x));
                    let i = choose|i: int| 0 <= i < before.len() && before[i] == x;
                    assert(s[i] == x);
                } else {
                    assert(s[s.len() - 1] == x);
                }
            }
            if s.contains(x) {
                let i = choose|i: int| 0 <= i < s.len() && s[i] == x;
                if i < before.len() {
                    assert(before[i] == x);
                    assert(before.contains(x));
                    assert(was.contains(x));
                    let j = choose|j: int| 0 <= j < was.len() && was[j] == x;
                    assert(now[j] == x);
                } else {
                    if was.contains(x) {
                    } else {
                        assert(now[now.len() - 1] == x);
                    }
                }
            }
        }
        if !was.contains(s.last()) {
            assert forall|a: int, b: int|
                0 <= a < now.len() && 0 <= b < now.len() && a != b implies now[a] != now[b] by {
                if a < was.len() && b < was.len() {
                } else if a < was.len() {
                    assert(was[a] != s.last());
                } else {
                    assert(was[b] != s.last());
                }
            }
        }
    }
}

/// Invariant. What a dump yields, if it yields anything, is a tree: its
/// root is one of finitely many nodes and so is every child, no child is
/// listed twice, and no node is its own descendant.
pub proof fn lemma_parse_gives_a_tree(text: Seq<char>, tree: TreeModel)
    requires
        parse(text) == Ok::<TreeModel, ParseError>(tree),
    ensures
        tree.wf(),
{
    let st = run(initial(), lines(text))->Ok_0;
    lemma_run_is_consistent(lines(text));
    let roots = close_tree(st).roots;
    assert forall|j: int| 0 <= j < roots.len() implies st.graph.contains_key(#[trigger] roots[j]) by {
        if j < st.roots.len() {
            assert(roots[j] == st.roots[j]);
        } else {
            assert(roots[j] == st.stack[0]);
        }
    }
    if roots.len() == 1 {
        assert(st.graph.contains_key(roots[0]));
    } else {
        let joined = first_occurrences(roots);
        lemma_first_occurrences(roots);
        assert forall|p: Seq<char>, k: int|
            tree.graph.contains_key(p) && 0 <= k < tree.graph[p].len() implies tree.graph.contains_key(
            #[trigger] tree.graph[p][k],
        ) by {
            if p == workspace() {
                assert(joined.contains(joined[k]));
                assert(roots.contains(joined[k]));
                let j = choose|j: int| 0 <= j < roots.len() && roots[j] == joined[k];
                assert(st.graph.contains_key(roots[j]));
            } else {
                assert(st.graph.contains_key(st.graph[p][k]));
            }
        }
        assert forall|p: Seq<char>| tree.graph.contains_key(p) implies (#[trigger] tree.graph[p]).no_duplicates() by {
            if p != workspace() {
                assert(st.graph[p].no_duplicates());
            }
        }
    }
}

/// Reading lines after lines is reading them all.
pub proof fn lemma_run_concat(st: ParserModel, first: Seq<Seq<char>>, then: Seq<Seq<char>>)
    ensures
        run(st, first + then) == match run(st, first) {
            Ok(between) => run(between, then),
            Err(e) => Err(e),
        },
    decreases then.len(),
{
    if then.len() == 0 {
        assert(first + then == first);
    } else {
        assert((first + then).drop_last() == first + then.drop_last());
        lemma_run_concat(st, first, then.drop_last());
    }
}

/// The lines of several dumps, one dump after the other, with an empty
/// line between two of them.
pub open spec fn joined(blocks: Seq<Seq<Seq<char>>>) -> Seq<Seq<char>>
    decreases blocks.len(),
{
    if blocks.len() == 0 {
        Seq::empty()
    } else if blocks.len() == 1 {
        blocks[0]
    } else {
        joined(blocks.drop_last()) + seq![Seq::<char>::empty()] + blocks.last()
    }
}

/// The lines of one tree: every line names an identity at a depth, the
/// first at depth 0 and no other.
pub open spec fn one_tree(block: Seq<Seq<char>>) -> bool {
    &&& block.len() > 0
    &&& forall|i: int| 0 <= i < block.len() ==> names_a_node(#[trigger] block[i])
    &&& depth_at(block, 0) == 0
    &&& forall|i: int| 1 <= i < block.len() ==> #[trigger] depth_at(block, i) >= 1
}

/// The roots of several dumps of one tree each: the identities that their
/// first lines name.
pub open spec fn roots_of(blocks: Seq<Seq<Seq<char>>>) -> Seq<Seq<char>> {
    Seq::new(blocks.len(), |b: int| id_at(blocks[b], 0))
}

/// Whether the parser, which had no ancestor open in the state `from`, has
/// met the root `root` since: either the root is the first open ancestor,
/// or it was known and has joined the roots.
spec fn met_root(from: ParserModel, root: Seq<char>, st: ParserModel) -> bool {
    ||| st.stack.len() == 0 && st.roots == from.roots.push(root)
    ||| st.stack.len() > 0 && st.stack[0] == root && st.roots == from.roots
}

proof fn lemma_one_tree_run(from: ParserModel, block: Seq<Seq<char>>, k: int)
    requires
        one_tree(block),
        from.stack.len() == 0,
        1 <= k <= block.len(),
    ensures
        run(from, block.take(k)) matches Ok(st) && met_root(from, id_at(block, 0), st),
    decreases k,
{
    lemma_run_step(from, block, k - 1);
    assert(names_a_node(block[k - 1]));
    let id = id_at(block, k - 1);
    let depth = depth_at(block, k - 1);
    if k == 1 {
        assert(block.take(0) =~= Seq::<Seq<char>>::empty());
        let st = step(from, block[0])->Ok_0;
        assert(from.stack.take(0) =~= Seq::<Seq<char>>::empty());
        if from.graph.contains_key(id) {
        } else {
            assert(st.stack[0] == id);
        }
    } else {
        lemma_one_tree_run(from, block, k - 1);
        let before = run(from, block.take(k - 1))->Ok_0;
        assert(depth_at(block, k - 1) >= 1);
        if depth <= before.stack.len() {
            let st = place(before, depth, id);
            let open = before.stack.take(depth as int);
            assert(open[0] == before.stack[0]);
            assert(st.stack[0] == open[0]);
        }
    }
}

/// The roots of the dumps that the parser has read, one tree each with an
/// empty line between two, are the roots of these dumps, in their order.
pub proof fn lemma_roots_of_joined(blocks: Seq<Seq<Seq<char>>>)
    requires
        blocks.len() >= 1,
        forall|b: int| 0 <= b < blocks.len() ==> one_tree(#[trigger] blocks[b]),
    ensures
        run(initial(), joined(blocks)) matches Ok(st) && close_tree(st).roots == roots_of(blocks),
    decreases blocks.len(),
{
    let last = blocks.last();
    assert(one_tree(last));
    assert(last.take(last.len() as int) == last);
    if blocks.len() == 1 {
        lemma_one_tree_run(initial(), last, last.len() as int);
        let st = run(initial(), last)->Ok_0;
        assert(close_tree(st).roots =~= roots_of(blocks));
    } else {
        let earlier = blocks.drop_last();
        assert forall|b: int| 0 <= b < earlier.len() implies one_tree(#[trigger] earlier[b]) by {
            assert(earlier[b] == blocks[b]);
        }
        lemma_roots_of_joined(earlier);
        let blank = seq![Seq::<char>::empty()];
        let s1 = run(initial(), joined(earlier))->Ok_0;
        lemma_blank_line(s1, joined(earlier));
        let s2 = close_tree(s1);
        lemma_run_concat(initial(), joined(earlier) + blank, last);
        lemma_one_tree_run(s2, last, last.len() as int);
        let st = run(s2, last)->Ok_0;
        assert(roots_of(earlier) =~= roots_of(blocks).drop_last());
        assert(close_tree(st).roots =~= roots_of(blocks));
    }
}

/// A number above the rank of every entry of `s`.
spec fn above(rank: Map<Seq<char>, nat>, s: Seq<Seq<char>>) -> nat
    decreases s.len(),
{
    if s.len() == 0 {
        0
    } else {
        above(rank, s.drop_last()) + rank[s.last()] + 1
    }
}

proof fn lemma_above(rank: Map<Seq<char>, nat>, s: Seq<Seq<char>>, i: int)
    requires
        0 <= i < s.len(),
    ensures
        rank[s[i]] < above(rank, s),
    decreases s.len(),
{
    if i < s.len() - 1 {
        lemma_above(rank, s.drop_last(), i);
    }
}

/// A new node above nodes of a graph makes no node its own descendant.
proof fn lemma_joining_keeps_acyclic(
    graph: Map<Seq<char>, Seq<Seq<char>>>,
    top: Seq<char>,
    below: Seq<Seq<char>>,
)
    requires
        acyclic(graph),
        closed(graph),
        !graph.contains_key(top),
        forall|k: int| 0 <= k < below.len() ==> graph.contains_key(#[trigger] below[k]),
    ensures
        acyclic(graph.insert(top, below)),
{
    let rank = choose|rank: Map<Seq<char>, nat>| ranked_by(graph, rank);
    let higher = rank.insert(top, above(rank, below));
    let joined = graph.insert(top, below);
    assert forall|p: Seq<char>, k: int|
        joined.contains_key(p) && 0 <= k < joined[p].len() implies higher[#[trigger] joined[p][k]]
        < higher[p] by {
        if p == top {
            lemma_above(rank, below, k);
            assert(graph.contains_key(below[k]));
        } else {
            assert(graph.contains_key(graph[p][k]));
            assert(rank[graph[p][k]] < rank[p]);
        }
    }
    assert(ranked_by(joined, higher));
}

/// Whether `rank` falls along the lines of every dump.
pub open spec fn falls_along_blocks(blocks: Seq<Seq<Seq<char>>>, rank: Map<Seq<char>, nat>) -> bool {
    forall|b: int| 0 <= b < blocks.len() ==> falls_along_lines(#[trigger] blocks[b], rank)
}

/// Whether the lines of several dumps together make no identity its own
/// descendant: some rank falls along the lines of them all.
pub open spec fn acyclic_blocks(blocks: Seq<Seq<Seq<char>>>) -> bool {
    exists|rank: Map<Seq<char>, nat>| falls_along_blocks(blocks, rank)
}

/// Whether a line of one of the first `n` dumps names `child` with the
/// parent `parent`.
pub open spec fn implied_by(
    blocks: Seq<Seq<Seq<char>>>,
    n: int,
    parent: Seq<char>,
    child: Seq<char>,
) -> bool {
    exists|b: int|
        0 <= b < n && implied(#[trigger] blocks[b], blocks[b].len() as int, parent, child)
}

/// Whether every child that `graph` lists is named, with its parent, by a
/// line of one of the first `n` dumps.
spec fn all_implied(graph: Map<Seq<char>, Seq<Seq<char>>>, blocks: Seq<Seq<Seq<char>>>, n: int) -> bool {
    forall|p: Seq<char>, c: int|
        graph.contains_key(p) && 0 <= c < graph[p].len() ==> implied_by(
            blocks,
            n,
            p,
            #[trigger] graph[p][c],
        )
}

/// Whether no line of an earlier dump names the root of dump `b`.
pub open spec fn fresh(blocks: Seq<Seq<Seq<char>>>, b: int) -> bool {
    forall|e: int|
        0 <= e < b ==> !named(#[trigger] blocks[e], blocks[e].len() as int).contains(
            id_at(blocks[b], 0),
        )
}

/// Whether a line of one of the first `n` dumps names `id`.
spec fn named_by(blocks: Seq<Seq<Seq<char>>>, n: int, id: Seq<char>) -> bool {
    exists|b: int| 0 <= b < n && named(#[trigger] blocks[b], blocks[b].len() as int).contains(id)
}

/// Whether every node of `graph` is named by one of the first `n` dumps.
spec fn all_named(graph: Map<Seq<char>, Seq<Seq<char>>>, blocks: Seq<Seq<Seq<char>>>, n: int) -> bool {
    forall|id: Seq<char>| #[trigger] graph.contains_key(id) ==> named_by(blocks, n, id)
}

/// Whether `graph` lists, for every line but the first of each of the
/// first `n` dumps whose root no earlier dump names, the identity of the
/// line as a child of the parent that the depths give it.
spec fn all_listed(graph: Map<Seq<char>, Seq<Seq<char>>>, blocks: Seq<Seq<Seq<char>>>, n: int) -> bool {
    forall|b: int, i: int|
        0 <= b < n && 1 <= i < blocks[b].len() && fresh(blocks, b) ==> graph.contains_key(
            #[trigger] parent_at(blocks[b], i),
        ) && graph[parent_at(blocks[b], i)].contains(id_at(blocks[b], i))
}

/// The lines of a tree whose root is known change nothing in the graph.
proof fn lemma_known_root_run(from: ParserModel, block: Seq<Seq<char>>, k: int)
    requires
        one_tree(block),
        from.stack.len() == 0,
        from.graph.contains_key(id_at(block, 0)),
        1 <= k <= block.len(),
    ensures
        run(from, block.take(k)) matches Ok(st) && st.graph == from.graph && st.stack.len() == 0,
    decreases k,
{
    lemma_run_step(from, block, k - 1);
    assert(names_a_node(block[k - 1]));
    if k == 1 {
        assert(block.take(0) =~= Seq::<Seq<char>>::empty());
        assert(from.stack.take(0) =~= Seq::<Seq<char>>::empty());
    } else {
        lemma_known_root_run(from, block, k - 1);
        assert(depth_at(block, k - 1) >= 1);
    }
}

proof fn lemma_plain_is_one_tree(block: Seq<Seq<char>>)
    requires
        plain(block),
    ensures
        one_tree(block),
{
}

/// What reading the lines of one plain tree, with no ancestor open before,
/// makes of the graph `from`: every node is one of `from` or named by a
/// line; every child listed is one that `from` lists or that a line gives;
/// what `from` lists stays listed; and unless the root was a node of `from`,
/// every line but the first is listed with the parent that the depths give.
spec fn after_tree(
    from: Map<Seq<char>, Seq<Seq<char>>>,
    block: Seq<Seq<char>>,
    to: Map<Seq<char>, Seq<Seq<char>>>,
) -> bool {
    &&& forall|id: Seq<char>| #[trigger]
        to.contains_key(id) ==> from.contains_key(id) || named(block, block.len() as int).contains(
            id,
        )
    &&& forall|p: Seq<char>, c: int|
        to.contains_key(p) && 0 <= c < to[p].len() ==> implied(
            block,
            block.len() as int,
            p,
            #[trigger] to[p][c],
        ) || (from.contains_key(p) && from[p].contains(to[p][c]))
    &&& forall|p: Seq<char>, c: int|
        from.contains_key(p) && 0 <= c < from[p].len() ==> to.contains_key(p) && to[p].contains(
            #[trigger] from[p][c],
        )
    &&& !from.contains_key(id_at(block, 0)) ==> forall|i: int|
        1 <= i < block.len() ==> to.contains_key(#[trigger] parent_at(block, i)) && to[parent_at(
            block,
            i,
        )].contains(id_at(block, i))
}

proof fn lemma_after_tree(from: ParserModel, block: Seq<Seq<char>>)
    requires
        plain(block),
        acyclic_lines(block),
        from.stack.len() == 0,
    ensures
        run(from, block) matches Ok(st) && after_tree(from.graph, block, st.graph),
{
    assert(block.take(block.len() as int) == block);
    if from.graph.contains_key(id_at(block, 0)) {
        lemma_plain_is_one_tree(block);
        lemma_known_root_run(from, block, block.len() as int);
    } else {
        lemma_plain_run(from, block, block.len() as int);
        let st = run(from, block)->Ok_0;
        assert forall|id: Seq<char>| #[trigger] st.graph.contains_key(id) implies from.graph.contains_key(
            id,
        ) || named(block, block.len() as int).contains(id) by {
            assert((from.graph.dom() + named(block, block.len() as int)).contains(id));
        }
    }
}

proof fn lemma_more_implied(
    blocks: Seq<Seq<Seq<char>>>,
    from: Map<Seq<char>, Seq<Seq<char>>>,
    to: Map<Seq<char>, Seq<Seq<char>>>,
)
    requires
        blocks.len() >= 2,
        all_implied(from, blocks.drop_last(), blocks.len() - 1),
        after_tree(from, blocks.last(), to),
    ensures
        all_implied(to, blocks, blocks.len() as int),
{
    let n = blocks.len() as int;
    let earlier = blocks.drop_last();
    assert forall|p: Seq<char>, c: int| to.contains_key(p) && 0 <= c < to[p].len() implies implied_by(
        blocks,
        n,
        p,
        #[trigger] to[p][c],
    ) by {
        let x = to[p][c];
        if implied(blocks.last(), blocks.last().len() as int, p, x) {
            assert(implied(blocks[n - 1], blocks[n - 1].len() as int, p, x));
        } else {
            assert(from.contains_key(p) && from[p].contains(x));
            let c0 = choose|c0: int| 0 <= c0 < from[p].len() && from[p][c0] == x;
            assert(implied_by(earlier, n - 1, p, from[p][c0]));
            let b = choose|b: int|
                0 <= b < n - 1 && implied(#[trigger] earlier[b], earlier[b].len() as int, p, x);
            assert(earlier[b] == blocks[b]);
            assert(implied(blocks[b], blocks[b].len() as int, p, x));
        }
    }
}

proof fn lemma_more_named(
    blocks: Seq<Seq<Seq<char>>>,
    from: Map<Seq<char>, Seq<Seq<char>>>,
    to: Map<Seq<char>, Seq<Seq<char>>>,
)
    requires
        blocks.len() >= 2,
        all_named(from, blocks.drop_last(), blocks.len() - 1),
        after_tree(from, blocks.last(), to),
    ensures
        all_named(to, blocks, blocks.len() as int),
{
    let n = blocks.len() as int;
    let earlier = blocks.drop_last();
    assert forall|id: Seq<char>| #[trigger] to.contains_key(id) implies named_by(blocks, n, id) by {
        if from.contains_key(id) {
            assert(named_by(earlier, n - 1, id));
            let b = choose|b: int|
                0 <= b < n - 1 && named(#[trigger] earlier[b], earlier[b].len() as int).contains(id);
            assert(earlier[b] == blocks[b]);
            assert(named(blocks[b], blocks[b].len() as int).contains(id));
        } else {
            assert(named(blocks[n - 1], blocks[n - 1].len() as int).contains(id));
        }
    }
}

proof fn lemma_fresh_earlier(blocks: Seq<Seq<Seq<char>>>, b: int)
    requires
        0 <= b < blocks.len() - 1,
        fresh(blocks, b),
    ensures
        fresh(blocks.drop_last(), b),
{
    let earlier = blocks.drop_last();
    assert(earlier[b] == blocks[b]);
    assert forall|e: int| 0 <= e < b implies !named(
        #[trigger] earlier[e],
        earlier[e].len() as int,
    ).contains(id_at(earlier[b], 0)) by {
        assert(earlier[e] == blocks[e]);
        assert(!named(blocks[e], blocks[e].len() as int).contains(id_at(blocks[b], 0)));
    }
}

proof fn lemma_fresh_last(blocks: Seq<Seq<Seq<char>>>, from: Map<Seq<char>, Seq<Seq<char>>>)
    requires
        blocks.len() >= 2,
        all_named(from, blocks.drop_last(), blocks.len() - 1),
        fresh(blocks, blocks.len() - 1),
    ensures
        !from.contains_key(id_at(blocks.last(), 0)),
{
    let n = blocks.len() as int;
    let earlier = blocks.drop_last();
    let root = id_at(blocks.last(), 0);
    if from.contains_key(root) {
        assert(named_by(earlier, n - 1, root));
        let e = choose|e: int|
            0 <= e < n - 1 && named(#[trigger] earlier[e], earlier[e].len() as int).contains(root);
        assert(earlier[e] == blocks[e]);
        assert(named(blocks[e], blocks[e].len() as int).contains(id_at(blocks[n - 1], 0)));
        assert(false);
    }
}

proof fn lemma_more_listed(
    blocks: Seq<Seq<Seq<char>>>,
    from: Map<Seq<char>, Seq<Seq<char>>>,
    to: Map<Seq<char>, Seq<Seq<char>>>,
)
    requires
        blocks.len() >= 2,
        all_named(from, blocks.drop_last(), blocks.len() - 1),
        all_listed(from, blocks.drop_last(), blocks.len() - 1),
        after_tree(from, blocks.last(), to),
    ensures
        all_listed(to, blocks, blocks.len() as int),
{
    let n = blocks.len() as int;
    let earlier = blocks.drop_last();
    assert forall|b: int, i: int|
        0 <= b < n && 1 <= i < blocks[b].len() && fresh(blocks, b) implies to.contains_key(
        #[trigger] parent_at(blocks[b], i),
    ) && to[parent_at(blocks[b], i)].contains(id_at(blocks[b], i)) by {
        if b < n - 1 {
            lemma_fresh_earlier(blocks, b);
            assert(earlier[b] == blocks[b]);
            let p = parent_at(earlier[b], i);
            let x = id_at(earlier[b], i);
            assert(from.contains_key(p) && from[p].contains(x));
            let c = choose|c: int| 0 <= c < from[p].len() && from[p][c] == x;
            assert(to[p].contains(from[p][c]));
        } else {
            lemma_fresh_last(blocks, from);
            assert(blocks[b] == blocks.last());
        }
    }
}

proof fn lemma_joined_edges(blocks: Seq<Seq<Seq<char>>>)
    requires
        blocks.len() >= 1,
        forall|b: int| 0 <= b < blocks.len() ==> plain(#[trigger] blocks[b]),
        acyclic_blocks(blocks),
    ensures
        run(initial(), joined(blocks)) matches Ok(st) && all_implied(
            st.graph,
            blocks,
            blocks.len() as int,
        ) && all_named(st.graph, blocks, blocks.len() as int) && all_listed(
            st.graph,
            blocks,
            blocks.len() as int,
        ),
    decreases blocks.len(),
{
    let n = blocks.len() as int;
    let last = blocks.last();
    assert(plain(last));
    let rank = choose|rank: Map<Seq<char>, nat>| falls_along_blocks(blocks, rank);
    assert(falls_along_lines(last, rank));
    if blocks.len() == 1 {
        lemma_after_tree(initial(), last);
        let st = run(initial(), last)->Ok_0;
        assert forall|p: Seq<char>, c: int|
            st.graph.contains_key(p) && 0 <= c < st.graph[p].len() implies implied_by(
            blocks,
            n,
            p,
            #[trigger] st.graph[p][c],
        ) by {
            assert(implied(blocks[0], blocks[0].len() as int, p, st.graph[p][c]));
        }
        assert forall|id: Seq<char>| #[trigger] st.graph.contains_key(id) implies named_by(
            blocks,
            n,
            id,
        ) by {
            assert(named(blocks[0], blocks[0].len() as int).contains(id));
        }
        assert forall|b: int, i: int|
            0 <= b < n && 1 <= i < blocks[b].len() && fresh(blocks, b) implies st.graph.contains_key(
            #[trigger] parent_at(blocks[b], i),
        ) && st.graph[parent_at(blocks[b], i)].contains(id_at(blocks[b], i)) by {
            assert(blocks[b] == last);
        }
    } else {
        let earlier = blocks.drop_last();
        assert forall|b: int| 0 <= b < earlier.len() implies plain(#[trigger] earlier[b]) by {
            assert(earlier[b] == blocks[b]);
        }
        assert(falls_along_blocks(earlier, rank)) by {
            assert forall|b: int| 0 <= b < earlier.len() implies falls_along_lines(
                #[trigger] earlier[b],
                rank,
            ) by {
                assert(earlier[b] == blocks[b]);
            }
        }
        lemma_joined_edges(earlier);
        let s1 = run(initial(), joined(earlier))->Ok_0;
        lemma_blank_line(s1, joined(earlier));
        let s2 = close_tree(s1);
        lemma_run_concat(initial(), joined(earlier) + seq![Seq::<char>::empty()], last);
        lemma_after_tree(s2, last);
        let st = run(s2, last)->Ok_0;
        lemma_more_implied(blocks, s1.graph, st.graph);
        lemma_more_named(blocks, s1.graph, st.graph);
        lemma_more_listed(blocks, s1.graph, st.graph);
    }
}

/// An empty line after lines that the parser accepted ends the tree.
proof fn lemma_blank_line(st: ParserModel, all: Seq<Seq<char>>)
    requires
        run(initial(), all) == Ok::<ParserModel, ParseError>(st),
    ensures
        run(initial(), all + seq![Seq::<char>::empty()]) == Ok::<ParserModel, ParseError>(
            close_tree(st),
        ),
{
    let blank = seq![Seq::<char>::empty()];
    lemma_run_concat(initial(), all, blank);
    assert(blank.drop_last() =~= Seq::<Seq<char>>::empty());
    assert(run(st, blank.drop_last()) == Ok::<ParserModel, ParseError>(st));
    assert(run(st, blank) == step(st, blank.last()));
}

/// Law. A dump of several plain trees with an empty line between two of
/// them, whose roots are all different and whose lines together make no
/// identity its own descendant, yields a tree. Its root is the node
/// `workspace`; the children of that node are the roots of the trees, as
/// many as there are trees and in the order of the trees; no other node
/// lists a child that no line gives it; and every tree whose root no
/// earlier tree names has each of its lines listed as a child of the
/// parent that the depths give it.
pub proof fn lemma_trees_hang_on_workspace(text: Seq<char>, blocks: Seq<Seq<Seq<char>>>)
    requires
        lines(text) == joined(blocks),
        blocks.len() >= 2,
        forall|b: int| 0 <= b < blocks.len() ==> plain(#[trigger] blocks[b]),
        roots_of(blocks).no_duplicates(),
        acyclic_blocks(blocks),
    ensures
        parse(text) matches Ok(tree) && {
            &&& tree.wf()
            &&& tree.root == workspace()
            &&& tree.graph[workspace()] == roots_of(blocks)
            &&& tree.graph[workspace()].len() == blocks.len()
            &&& forall|b: int|
                0 <= b < blocks.len() ==> tree.graph.contains_key(#[trigger] roots_of(blocks)[b])
            &&& forall|p: Seq<char>, c: int|
                p != workspace() && tree.graph.contains_key(p) && 0 <= c < tree.graph[p].len()
                    ==> implied_by(blocks, blocks.len() as int, p, #[trigger] tree.graph[p][c])
            &&& forall|b: int, i: int|
                0 <= b < blocks.len() && 1 <= i < blocks[b].len() && fresh(blocks, b) ==> {
                    &&& tree.graph.contains_key(#[trigger] parent_at(blocks[b], i))
                    &&& tree.graph[parent_at(blocks[b], i)].contains(id_at(blocks[b], i))
                    &&& tree.graph[parent_at(blocks[b], i)].no_duplicates()
                }
        },
{
    assert forall|b: int| 0 <= b < blocks.len() implies one_tree(#[trigger] blocks[b]) by {
        lemma_plain_is_one_tree(blocks[b]);
    }
    lemma_roots_of_joined(blocks);
    lemma_joined_edges(blocks);
    let st = run(initial(), lines(text))->Ok_0;
    let roots = close_tree(st).roots;
    lemma_run_is_consistent(lines(text));
    lemma_first_occurrences_of_distinct(roots);
    assert forall|k: int| 0 <= k < roots.len() implies st.graph.contains_key(#[trigger] roots[k]) by {
        if k < st.roots.len() {
            assert(roots[k] == st.roots[k]);
        } else {
            assert(roots[k] == st.stack[0]);
        }
    }
    let rank = choose|rank: Map<Seq<char>, nat>| falls_along_blocks(blocks, rank);
    assert forall|p: Seq<char>, c: int|
        st.graph.contains_key(p) && 0 <= c < st.graph[p].len() implies rank[#[trigger] st.graph[p][c]]
        < rank[p] by {
        let x = st.graph[p][c];
        assert(implied_by(blocks, blocks.len() as int, p, x));
        let b = choose|b: int|
            0 <= b < blocks.len() && implied(#[trigger] blocks[b], blocks[b].len() as int, p, x);
        assert(falls_along_lines(blocks[b], rank));
        let i = choose|i: int|
            1 <= i < blocks[b].len() && #[trigger] parent_at(blocks[b], i) == p && id_at(
                blocks[b],
                i,
            ) == x;
        assert(rank[id_at(blocks[b], i)] < rank[parent_at(blocks[b], i)]);
    }
    assert(ranked_by(st.graph, rank));
    lemma_joining_keeps_acyclic(st.graph, workspace(), roots);
    let tree = parse(text)->Ok_0;
    lemma_parse_gives_a_tree(text, tree);
    assert forall|b: int| 0 <= b < blocks.len() implies tree.graph.contains_key(
        #[trigger] roots_of(blocks)[b],
    ) by {
        assert(st.graph.contains_key(roots[b]));
    }
    assert forall|b: int, i: int|
        0 <= b < blocks.len() && 1 <= i < blocks[b].len() && fresh(blocks, b) implies {
        &&& tree.graph.contains_key(#[trigger] parent_at(blocks[b], i))
        &&& tree.graph[parent_at(blocks[b], i)].contains(id_at(blocks[b], i))
        &&& tree.graph[parent_at(blocks[b], i)].no_duplicates()
    } by {
        let p = parent_at(blocks[b], i);
        assert(st.graph.contains_key(p) && st.graph[p].contains(id_at(blocks[b], i)));
        assert(p != workspace());
        assert(tree.graph[p] == st.graph[p]);
    }
}

} // verus!
