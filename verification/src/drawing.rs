//! What to draw for a tree, before any geometry: the circles in the order
//! in which they are drawn, each with its color and with the place among
//! its siblings from which its position follows, and the lines between them.
use vstd::prelude::*;
use crate::color::{Color, HighlightModel, HighlightState, paint, line_color};
use crate::dependency_tree::Dependency;
use crate::model::{TreeModel, ranked_by};
use crate::satellites::{offset, satellite_offset};

verus! {

/// How a circle hangs on the one drawn for its parent.
pub struct HangModel {
    /// The position of the parent's circle in the drawing.
    pub parent: nat,
    /// The position of the node among the children of its parent.
    pub ordinal: nat,
    /// The number of children of its parent.
    pub siblings: nat,
}

/// A circle to draw.
pub struct CrateModel {
    pub identity: Seq<char>,
    pub color: Color,
    pub hang: Option<HangModel>,
}

/// A line to draw, between the circles at two positions of the drawing.
pub struct LineModel {
    pub from: nat,
    pub to: nat,
    pub color: Color,
}

/// A rank for each node of a tree that falls along every edge.
pub open spec fn height(tree: TreeModel) -> Map<Seq<char>, nat> {
    choose|rank: Map<Seq<char>, nat>| ranked_by(tree.graph, rank)
}

/// The circles for the node `id` and its descendants: the node first, then
/// each child with its descendants, child after child. `at` is the position
/// of the node's circle in the whole drawing.
pub open spec fn subtree(
    tree: TreeModel,
    id: Seq<char>,
    state: HighlightModel,
    base: Color,
    hang: Option<HangModel>,
    at: nat,
) -> Seq<CrateModel>
    decreases height(tree)[id], 1nat, 0nat,
    when tree.wf() && tree.graph.contains_key(id)
{
    seq![CrateModel { identity: id, color: paint(base, id, state), hang }] + fan(
        tree,
        id,
        state,
        base,
        at,
        0,
        at + 1,
    )
}

/// The circles for the children of `id` from the one with ordinal `k` on,
/// with their descendants. `at` is the position of the circle of `id`,
/// `next` the one of the first circle to come.
pub open spec fn fan(
    tree: TreeModel,
    id: Seq<char>,
    state: HighlightModel,
    base: Color,
    at: nat,
    k: nat,
    next: nat,
) -> Seq<CrateModel>
    decreases height(tree)[id], 0nat, tree.graph[id].len() - k,
    when tree.wf() && tree.graph.contains_key(id)
{
    if k >= tree.graph[id].len() {
        Seq::empty()
    } else {
        let hang = HangModel { parent: at, ordinal: k, siblings: tree.graph[id].len() };
        let first = subtree(tree, tree.graph[id][k as int], state, base, Some(hang), next);
        first + fan(tree, id, state, base, at, k + 1, next + first.len())
    }
}

/// The lines of a drawing: one to each circle that hangs on another, in
/// the order of the circles.
pub open spec fn lines(crates: Seq<CrateModel>) -> Seq<LineModel>
    decreases crates.len(),
{
    if crates.len() == 0 {
        Seq::empty()
    } else {
        let before = lines(crates.drop_last());
        match crates.last().hang {
            Some(hang) => before.push(
                LineModel {
                    from: hang.parent,
                    to: (crates.len() - 1) as nat,
                    color: line_color(),
                },
            ),
            None => before,
        }
    }
}

/// How a circle hangs on the one drawn for its parent.
#[derive(Clone, Copy, Debug)]
pub struct Hang {
    /// The position of the parent's circle in the drawing.
    pub parent: usize,
    /// The position of the node among the children of its parent, from 0.
    pub ordinal: usize,
    /// The number of children of its parent.
    pub siblings: usize,
}

impl View for Hang {
    type V = HangModel;

    open spec fn view(&self) -> HangModel {
        HangModel {
            parent: self.parent as nat,
            ordinal: self.ordinal as nat,
            siblings: self.siblings as nat,
        }
    }
}

/// A circle to draw for a node: the node, its color, and how it hangs on
/// the circle of its parent. The circle drawn first hangs on none.
pub struct DrawCrate<'a> {
    pub node: Dependency<'a>,
    pub color: Color,
    pub hang: Option<Hang>,
}

impl<'a> View for DrawCrate<'a> {
    type V = CrateModel;

    open spec fn view(&self) -> CrateModel {
        CrateModel {
            identity: self.node.identity(),
            color: self.color,
            hang: match self.hang {
                Some(hang) => Some(hang@),
                None => None,
            },
        }
    }
}

/// A line to draw, between the circles at two positions of the drawing.
#[derive(Clone, Copy, Debug)]
pub struct DrawLine {
    pub from: usize,
    pub to: usize,
    pub color: Color,
}

impl View for DrawLine {
    type V = LineModel;

    open spec fn view(&self) -> LineModel {
        LineModel { from: self.from as nat, to: self.to as nat, color: self.color }
    }
}

/// The circles of a drawing, as the model has them.
pub open spec fn crates_view(crates: Seq<DrawCrate>) -> Seq<CrateModel> {
    Seq::new(crates.len(), |i: int| crates[i]@)
}

/// The lines of a drawing, as the model has them.
pub open spec fn lines_view(lines: Seq<DrawLine>) -> Seq<LineModel> {
    Seq::new(lines.len(), |i: int| lines[i]@)
}

impl Hang {
    /// How many steps from the middle of the parent's arc the circle
    /// stands.
    pub fn steps(&self) -> (steps: i128)
        ensures
            steps == offset(self@.ordinal),
    {
        satellite_offset(self.ordinal)
    }
}

impl<'a> DrawCrate<'a> {
    /// Whether the node has so many children, five or more, that its
    /// circle is moved outwards and its children get the wide arc.
    pub fn is_wide(&self) -> (wide: bool)
        requires
            self.node.wf(),
        ensures
            wide == (self.node.children().len() >= 5),
    {
        self.node.children_count() >= 5
    }
}

fn draw_subtree<'a>(
    node: Dependency<'a>,
    state: &HighlightState,
    base: Color,
    hang: Option<Hang>,
    out: &mut Vec<DrawCrate<'a>>,
)
    requires
        node.wf(),
        state.wf(),
    ensures
        crates_view(final(out)@) == crates_view(old(out)@) + subtree(
            node.tree(),
            node.identity(),
            state@,
            base,
            match hang {
                Some(h) => Some(h@),
                None => None,
            },
            old(out).len() as nat,
        ),
        final(out).len() > old(out).len(),
        forall|i: int| 0 <= i < old(out).len() ==> final(out)[i] == old(out)[i],
        forall|i: int|
            old(out).len() <= i < final(out).len() ==> (#[trigger] final(out)[i]).node.wf()
                && final(out)[i].node.tree() == node.tree(),
    decreases node.height(),
{
    let at = out.len();
    let color = state.color_of(base, node.name());
    let ghost tree = node.tree();
    let ghost id = node.identity();
    let ghost hung: Option<HangModel> = match hang {
        Some(h) => Some(h@),
        None => None,
    };
    let ghost whole = crates_view(old(out)@) + subtree(tree, id, state@, base, hung, at as nat);
    proof {
        node.lemma_is_node();
    }
    out.push(DrawCrate { node, color, hang });
    assert(crates_view(out@) =~= crates_view(old(out)@) + seq![
        CrateModel { identity: id, color: paint(base, id, state@), hang: hung },
    ]);
    assert(whole =~= crates_view(out@) + fan(tree, id, state@, base, at as nat, 0, out.len() as nat));
    let n = node.children_count();
    let mut k: usize = 0;
    while k < n
        invariant
            k <= n,
            node.wf(),
            state.wf(),
            tree == node.tree(),
            id == node.identity(),
            tree.wf(),
            tree.graph.contains_key(id),
            n == node.children().len(),
            at == old(out).len(),
            out.len() > at,
            whole == crates_view(out@) + fan(tree, id, state@, base, at as nat, k as nat, out.len() as nat),
            forall|i: int| 0 <= i < old(out).len() ==> out[i] == old(out)[i],
            forall|i: int|
                old(out).len() <= i < out.len() ==> (#[trigger] out[i]).node.wf() && out[i].node.tree()
                    == tree,
        decreases n - k,
    {
        let child = node.child(k);
        let ghost before = out@;
        let ghost next = out.len() as nat;
        let how = Hang { parent: at, ordinal: k, siblings: n };
        draw_subtree(child, state, base, Some(how), out);
        proof {
            let first = subtree(tree, tree.graph[id][k as int], state@, base, Some(how@), next);
            assert(crates_view(out@) == crates_view(before) + first);
            assert(first.len() == out.len() - next);
            assert(whole =~= crates_view(out@) + fan(
                tree,
                id,
                state@,
                base,
                at as nat,
                (k + 1) as nat,
                out.len() as nat,
            ));
        }
        k += 1;
    }
    assert(whole =~= crates_view(out@));
}

/// The lines of a drawing.
pub fn draw_lines(crates: &Vec<DrawCrate>) -> (out: Vec<DrawLine>)
    ensures
        lines_view(out@) == lines(crates_view(crates@)),
{
    let mut out: Vec<DrawLine> = Vec::new();
    let mut i: usize = 0;
    assert(crates_view(crates@).take(0) =~= Seq::<CrateModel>::empty());
    while i < crates.len()
        invariant
            i <= crates.len(),
            lines_view(out@) == lines(crates_view(crates@).take(i as int)),
        decreases crates.len() - i,
    {
        let ghost seen = crates_view(crates@).take(i + 1);
        assert(seen.drop_last() == crates_view(crates@).take(i as int));
        assert(seen.last() == crates[i as int]@);
        let ghost before = lines_view(out@);
        match crates[i].hang {
            Some(hang) => {
                out.push(DrawLine { from: hang.parent, to: i, color: (255, 255, 255) });
                assert(lines_view(out@) =~= before.push(
                    LineModel { from: hang.parent as nat, to: i as nat, color: line_color() },
                ));
            },
            None => {},
        }
        i += 1;
    }
    assert(crates_view(crates@).take(i as int) == crates_view(crates@));
    out
}

/// What to draw for `node` and its descendants: a circle for each visit of
/// a node, the node before its children and each child with its
/// descendants before the next child, and a line to each circle but the
/// first.
pub fn draw_tree<'a>(node: Dependency<'a>, color: Color, state: &HighlightState) -> (drawing: (
    Vec<DrawCrate<'a>>,
    Vec<DrawLine>,
))
    requires
        node.wf(),
        state.wf(),
    ensures
        crates_view(drawing.0@) == subtree(node.tree(), node.identity(), state@, color, None, 0),
        lines_view(drawing.1@) == lines(crates_view(drawing.0@)),
        forall|i: int|
            0 <= i < drawing.0.len() ==> (#[trigger] drawing.0[i]).node.wf() && drawing.0[i].node.tree()
                == node.tree(),
{
    let mut crates: Vec<DrawCrate<'a>> = Vec::new();
    assert(crates_view(crates@) =~= Seq::<CrateModel>::empty());
    draw_subtree(node, state, color, None, &mut crates);
    let lines = draw_lines(&crates);
    (crates, lines)
}

/// Law. A node without children is drawn as one circle, and without a
/// line when it is drawn for itself.
pub proof fn lemma_leaf_is_drawn_alone(
    tree: TreeModel,
    id: Seq<char>,
    state: HighlightModel,
    base: Color,
)
    requires
        tree.wf(),
        tree.graph.contains_key(id),
        tree.graph[id].len() == 0,
    ensures
        subtree(tree, id, state, base, None, 0) == seq![
            CrateModel { identity: id, color: paint(base, id, state), hang: None },
        ],
        lines(subtree(tree, id, state, base, None, 0)) == Seq::<LineModel>::empty(),
{
    let drawn = subtree(tree, id, state, base, None, 0);
    assert(drawn =~= seq![CrateModel { identity: id, color: paint(base, id, state), hang: None }]);
    assert(drawn.drop_last() =~= Seq::<CrateModel>::empty());
    assert(lines(drawn.drop_last()) =~= Seq::<LineModel>::empty());
}

/// Whether circle `i` of `drawn`, whose first circle stands at position
/// `origin` of the drawing, hangs on an earlier circle of `drawn`, and
/// that one is drawn for the parent of its node: the node is the child with
/// the ordinal that the circle gives, among as many children as it gives.
pub open spec fn hangs_on_parent(tree: TreeModel, drawn: Seq<CrateModel>, origin: nat, i: int) -> bool {
    &&& drawn[i].hang matches Some(hang)
    &&& origin <= hang.parent < origin + i
    &&& tree.graph.contains_key(drawn[hang.parent - origin].identity)
    &&& hang.siblings == tree.graph[drawn[hang.parent - origin].identity].len()
    &&& hang.ordinal < hang.siblings
    &&& tree.graph[drawn[hang.parent - origin].identity][hang.ordinal as int] == drawn[i].identity
}

proof fn lemma_subtree_hangs(
    tree: TreeModel,
    id: Seq<char>,
    state: HighlightModel,
    base: Color,
    hang: Option<HangModel>,
    at: nat,
)
    requires
        tree.wf(),
        tree.graph.contains_key(id),
    ensures
        subtree(tree, id, state, base, hang, at).len() >= 1,
        subtree(tree, id, state, base, hang, at)[0] == (CrateModel {
            identity: id,
            color: paint(base, id, state),
            hang,
        }),
        forall|i: int|
            1 <= i < subtree(tree, id, state, base, hang, at).len() ==> #[trigger] hangs_on_parent(
                tree,
                subtree(tree, id, state, base, hang, at),
                at,
                i,
            ),
        forall|i: int|
            0 <= i < subtree(tree, id, state, base, hang, at).len() ==> (#[trigger] subtree(
                tree,
                id,
                state,
                base,
                hang,
                at,
            )[i]).color == paint(base, subtree(tree, id, state, base, hang, at)[i].identity, state),
    decreases height(tree)[id], 1nat, 0nat,
{
    let head = seq![CrateModel { identity: id, color: paint(base, id, state), hang }];
    let rest = fan(tree, id, state, base, at, 0, at + 1);
    let all = subtree(tree, id, state, base, hang, at);
    lemma_fan_hangs(tree, id, state, base, at, 0, at + 1, head);
    assert(all == head + rest);
    assert forall|i: int| 1 <= i < all.len() implies #[trigger] hangs_on_parent(tree, all, at, i) by {
        let j = i - 1;
        assert(hangs_on_parent(tree, head + rest, at, head.len() + j));
    }
    assert forall|i: int| 0 <= i < all.len() implies (#[trigger] all[i]).color == paint(
        base,
        all[i].identity,
        state,
    ) by {
        if i >= 1 {
            assert(all[i] == rest[i - 1]);
        }
    }
}

proof fn lemma_fan_hangs(
    tree: TreeModel,
    id: Seq<char>,
    state: HighlightModel,
    base: Color,
    at: nat,
    k: nat,
    next: nat,
    before: Seq<CrateModel>,
)
    requires
        tree.wf(),
        tree.graph.contains_key(id),
        before.len() == next - at,
        before.len() >= 1,
        before[0].identity == id,
    ensures
        forall|i: int|
            0 <= i < fan(tree, id, state, base, at, k, next).len() ==> #[trigger] hangs_on_parent(
                tree,
                before + fan(tree, id, state, base, at, k, next),
                at,
                before.len() + i,
            ),
        forall|i: int|
            0 <= i < fan(tree, id, state, base, at, k, next).len() ==> (#[trigger] fan(
                tree,
                id,
                state,
                base,
                at,
                k,
                next,
            )[i]).color == paint(base, fan(tree, id, state, base, at, k, next)[i].identity, state),
    decreases height(tree)[id], 0nat, tree.graph[id].len() - k,
{
    let all = fan(tree, id, state, base, at, k, next);
    if k < tree.graph[id].len() {
        let child = tree.graph[id][k as int];
        let hang = HangModel { parent: at, ordinal: k, siblings: tree.graph[id].len() };
        let first = subtree(tree, child, state, base, Some(hang), next);
        let rest = fan(tree, id, state, base, at, k + 1, next + first.len());
        assert(all == first + rest);
        assert(tree.graph.contains_key(child));
        lemma_subtree_hangs(tree, child, state, base, Some(hang), next);
        lemma_fan_hangs(tree, id, state, base, at, k + 1, next + first.len(), before + first);
        let whole = before + all;
        assert(whole =~= (before + first) + rest);
        assert forall|i: int| 0 <= i < all.len() implies #[trigger] hangs_on_parent(
            tree,
            whole,
            at,
            before.len() + i,
        ) by {
            if i == 0 {
                assert(whole[before.len() as int] == first[0]);
                assert(whole[0] == before[0]);
            } else if i < first.len() {
                assert(hangs_on_parent(tree, first, next, i));
                let h = first[i].hang->0;
                assert(whole[before.len() + i] == first[i]);
                assert(whole[h.parent - at] == first[h.parent - next]);
            } else {
                let j = i - first.len();
                assert(hangs_on_parent(tree, (before + first) + rest, at, (before + first).len() + j));
            }
        }
        assert forall|i: int| 0 <= i < all.len() implies (#[trigger] all[i]).color == paint(
            base,
            all[i].identity,
            state,
        ) by {
            if i < first.len() {
                assert(all[i] == first[i]);
            } else {
                assert(all[i] == rest[i - first.len()]);
            }
        }
    }
}

proof fn lemma_lines_of_hanging(drawn: Seq<CrateModel>, n: int)
    requires
        1 <= n <= drawn.len(),
        drawn[0].hang is None,
        forall|i: int| 1 <= i < drawn.len() ==> (#[trigger] drawn[i]).hang is Some,
    ensures
        lines(drawn.take(n)).len() == n - 1,
        forall|j: int|
            0 <= j < n - 1 ==> #[trigger] lines(drawn.take(n))[j] == (LineModel {
                from: drawn[j + 1].hang->0.parent,
                to: (j + 1) as nat,
                color: line_color(),
            }),
    decreases n,
{
    let now = drawn.take(n);
    assert(now.drop_last() == drawn.take(n - 1));
    assert(now.last() == drawn[n - 1]);
    if n == 1 {
        assert(drawn.take(0).len() == 0);
        assert(lines(drawn.take(0)) =~= Seq::<LineModel>::empty());
    } else {
        lemma_lines_of_hanging(drawn, n - 1);
        assert(drawn[n - 1].hang is Some);
        let was = lines(drawn.take(n - 1));
        assert(lines(now) == was.push(
            LineModel { from: drawn[n - 1].hang->0.parent, to: (n - 1) as nat, color: line_color() },
        ));
        assert forall|j: int| 0 <= j < n - 1 implies #[trigger] lines(now)[j] == (LineModel {
            from: drawn[j + 1].hang->0.parent,
            to: (j + 1) as nat,
            color: line_color(),
        }) by {
            if j < n - 2 {
                assert(lines(now)[j] == was[j]);
            }
        }
    }
}

/// Law. In what is drawn for a node, the first circle is the one of the
/// node and hangs on none; every other hangs on an earlier circle, the one
/// of its parent; every circle has the color that the state of the build
/// gives its node; and there is one line to each circle but the first, from
/// the circle it hangs on, in the order of the circles.
pub proof fn lemma_drawing_hangs_together(
    tree: TreeModel,
    id: Seq<char>,
    state: HighlightModel,
    base: Color,
)
    requires
        tree.wf(),
        tree.graph.contains_key(id),
    ensures
        ({
            let drawn = subtree(tree, id, state, base, None, 0);
            &&& drawn.len() >= 1
            &&& drawn[0].identity == id
            &&& drawn[0].hang is None
            &&& forall|i: int| 1 <= i < drawn.len() ==> #[trigger] hangs_on_parent(tree, drawn, 0, i)
            &&& forall|i: int|
                0 <= i < drawn.len() ==> (#[trigger] drawn[i]).color == paint(
                    base,
                    drawn[i].identity,
                    state,
                )
            &&& lines(drawn).len() == drawn.len() - 1
            &&& forall|j: int|
                0 <= j < drawn.len() - 1 ==> #[trigger] lines(drawn)[j] == (LineModel {
                    from: drawn[j + 1].hang->0.parent,
                    to: (j + 1) as nat,
                    color: line_color(),
                })
        }),
{
    let drawn = subtree(tree, id, state, base, None, 0);
    lemma_subtree_hangs(tree, id, state, base, None, 0);
    assert forall|i: int| 1 <= i < drawn.len() implies (#[trigger] drawn[i]).hang is Some by {
        assert(hangs_on_parent(tree, drawn, 0, i));
    }
    lemma_lines_of_hanging(drawn, drawn.len() as int);
    assert(drawn.take(drawn.len() as int) == drawn);
}

} // verus!
