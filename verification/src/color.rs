//! Colors, and how the state of a build shows in the color of a node.
use vstd::prelude::*;
use vstd::hash_set::StringHashSet;

verus! {

/// Red, green and blue.
pub type Color = (u8, u8, u8);

/// The color of a completed node, which an active node takes on by degrees.
pub open spec fn highlight() -> Color {
    (0x98u8, 0xfbu8, 0x98u8)
}

/// The color of every line.
pub open spec fn line_color() -> Color {
    (255u8, 255u8, 255u8)
}

/// How far a transition has come: a fraction between 0 and 1.
#[derive(Clone, Copy, Debug)]
pub struct Transition {
    numer: u64,
    denom: u64,
}

impl Transition {
    /// The numerator of the fraction.
    pub closed spec fn numer(&self) -> nat {
        self.numer as nat
    }

    /// The denominator of the fraction.
    pub closed spec fn denom(&self) -> nat {
        self.denom as nat
    }

    /// The fraction lies between 0 and 1.
    pub open spec fn wf(&self) -> bool {
        0 < self.denom() && self.numer() <= self.denom()
    }

    /// The fraction `numer / denom`, if it lies between 0 and 1.
    pub fn new(numer: u64, denom: u64) -> (r: Option<Transition>)
        ensures
            r is Some <==> 0 < denom && numer <= denom,
            r matches Some(t) ==> t.wf() && t.numer() == numer && t.denom() == denom,
    {
        if denom > 0 && numer <= denom {
            Some(Transition { numer, denom })
        } else {
            None
        }
    }
}

/// A channel on its way from `base` to `target`: from the lower of the two
/// it has come the given fraction of their distance, rounded down, and it
/// never leaves the range of a channel.
pub open spec fn blend_channel(base: u8, target: u8, numer: nat, denom: nat) -> int {
    let low = if base <= target {
        base as int
    } else {
        target as int
    };
    let high = if base <= target {
        target as int
    } else {
        base as int
    };
    let reached = low + ((high - low) * numer) / (denom as int);
    if reached > 255 {
        255
    } else {
        reached
    }
}

/// A color on its way to the highlight color.
pub open spec fn blend(base: Color, numer: nat, denom: nat) -> Color {
    (
        blend_channel(base.0, highlight().0, numer, denom) as u8,
        blend_channel(base.1, highlight().1, numer, denom) as u8,
        blend_channel(base.2, highlight().2, numer, denom) as u8,
    )
}

/// Which nodes are being built, which are built, and how far the
/// transition of the former has come.
pub struct HighlightModel {
    pub active: Set<Seq<char>>,
    pub completed: Set<Seq<char>>,
    pub numer: nat,
    pub denom: nat,
}

/// The color of the node `id`: on its way to the highlight color where
/// the node is active; else the highlight color where it is completed; else
/// its base color.
pub open spec fn paint(base: Color, id: Seq<char>, state: HighlightModel) -> Color {
    if state.active.contains(id) {
        blend(base, state.numer, state.denom)
    } else if state.completed.contains(id) {
        highlight()
    } else {
        base
    }
}

proof fn lemma_blend_channel_in_range(base: u8, target: u8, numer: nat, denom: nat)
    requires
        denom > 0,
    ensures
        0 <= blend_channel(base, target, numer, denom) <= 255,
{
    let low = if base <= target { base as int } else { target as int };
    let high = if base <= target { target as int } else { base as int };
    assert(((high - low) * numer) / (denom as int) >= 0) by (nonlinear_arith)
        requires
            high - low >= 0,
            numer >= 0,
            denom > 0,
    ;
}

/// One channel of `blend_color`.
pub fn blend_one(base: u8, target: u8, transition: Transition) -> (c: u8)
    requires
        transition.wf(),
    ensures
        c == blend_channel(base, target, transition.numer(), transition.denom()),
{
    let low: u8 = if base <= target { base } else { target };
    let high: u8 = if base <= target { target } else { base };
    let span: u128 = (high - low) as u128;
    let numer: u128 = transition.numer as u128;
    let denom: u128 = transition.denom as u128;
    assert(span * numer <= 255 * 0xffff_ffff_ffff_ffff) by (nonlinear_arith)
        requires
            span <= 255,
            numer <= 0xffff_ffff_ffff_ffff,
    ;
    let gained: u128 = span * numer / denom;
    assert(gained <= 255 * 0xffff_ffff_ffff_ffff);
    let reached: u128 = low as u128 + gained;
    if reached > 255 {
        255
    } else {
        reached as u8
    }
}

/// The highlight color.
pub fn highlight_color() -> (c: Color)
    ensures
        c == highlight(),
{
    (0x98, 0xfb, 0x98)
}

/// A color on its way to the highlight color.
pub fn blend_color(base: Color, transition: Transition) -> (c: Color)
    requires
        transition.wf(),
    ensures
        c == blend(base, transition.numer(), transition.denom()),
{
    let target = highlight_color();
    proof {
        lemma_blend_channel_in_range(base.0, target.0, transition.numer(), transition.denom());
        lemma_blend_channel_in_range(base.1, target.1, transition.numer(), transition.denom());
        lemma_blend_channel_in_range(base.2, target.2, transition.numer(), transition.denom());
    }
    (
        blend_one(base.0, target.0, transition),
        blend_one(base.1, target.1, transition),
        blend_one(base.2, target.2, transition),
    )
}

/// The state of a build, for one layout.
pub struct HighlightState {
    active: StringHashSet,
    completed: StringHashSet,
    transition: Transition,
}

impl View for HighlightState {
    type V = HighlightModel;

    closed spec fn view(&self) -> HighlightModel {
        HighlightModel {
            active: self.active@,
            completed: self.completed@,
            numer: self.transition.numer(),
            denom: self.transition.denom(),
        }
    }
}

impl HighlightState {
    /// The transition lies between 0 and 1.
    pub open spec fn wf(&self) -> bool {
        0 < self@.denom && self@.numer <= self@.denom
    }

    /// No node active, none completed.
    pub fn new(transition: Transition) -> (state: HighlightState)
        requires
            transition.wf(),
        ensures
            state.wf(),
            state@ == (HighlightModel {
                active: Set::empty(),
                completed: Set::empty(),
                numer: transition.numer(),
                denom: transition.denom(),
            }),
    {
        HighlightState {
            active: StringHashSet::new(),
            completed: StringHashSet::new(),
            transition,
        }
    }

    /// Marks the node `name` as active.
    pub fn set_active(&mut self, name: &str)
        requires
            old(self).wf(),
        ensures
            final(self).wf(),
            final(self)@ == (HighlightModel {
                active: old(self)@.active.insert(name@),
                ..old(self)@
            }),
    {
        self.active.insert(name.to_owned());
    }

    /// Marks the node `name` as completed.
    pub fn set_completed(&mut self, name: &str)
        requires
            old(self).wf(),
        ensures
            final(self).wf(),
            final(self)@ == (HighlightModel {
                completed: old(self)@.completed.insert(name@),
                ..old(self)@
            }),
    {
        self.completed.insert(name.to_owned());
    }

    /// The color of the node `name` whose base color is `base`.
    pub fn color_of(&self, base: Color, name: &str) -> (c: Color)
        requires
            self.wf(),
        ensures
            c == paint(base, name@, self@),
    {
        if self.active.contains(name) {
            blend_color(base, self.transition)
        } else if self.completed.contains(name) {
            highlight_color()
        } else {
            base
        }
    }
}

/// Law. At the start of a transition a color that no channel of which
/// exceeds the highlight color is still itself, and at its end it is the
/// highlight color.
pub proof fn lemma_blend_ends(base: Color, denom: nat)
    requires
        denom > 0,
        base.0 <= highlight().0,
        base.1 <= highlight().1,
        base.2 <= highlight().2,
    ensures
        blend(base, 0, denom) == base,
        blend(base, denom, denom) == highlight(),
{
    lemma_channel_ends(base.0, highlight().0, denom);
    lemma_channel_ends(base.1, highlight().1, denom);
    lemma_channel_ends(base.2, highlight().2, denom);
}

proof fn lemma_channel_ends(base: u8, target: u8, denom: nat)
    requires
        denom > 0,
        base <= target,
    ensures
        blend_channel(base, target, 0, denom) == base,
        blend_channel(base, target, denom, denom) == target,
{
    let span = target as int - base as int;
    assert((span * 0) / (denom as int) == 0) by (nonlinear_arith)
        requires
            denom > 0,
    ;
    assert((span * denom) / (denom as int) == span) by (nonlinear_arith)
        requires
            denom > 0,
    ;
}

} // verus!
