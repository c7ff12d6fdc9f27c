//! The order of the satellites of a node: the children fan out from the
//! middle of the arc, alternately to one side and to the other.
use vstd::prelude::*;

verus! {

/// How many steps from the middle of the arc the child with the given
/// ordinal stands: 0, +1, -1, +2, -2, and so on.
pub open spec fn offset(ordinal: nat) -> int {
    if ordinal % 2 == 1 {
        (ordinal as int + 1) / 2
    } else {
        -(ordinal as int / 2)
    }
}

/// The offsets of the first `amount` children, added up.
pub open spec fn offset_sum(amount: nat) -> int
    decreases amount,
{
    if amount == 0 {
        0
    } else {
        offset_sum((amount - 1) as nat) + offset((amount - 1) as nat)
    }
}

/// The largest offset among `amount` children: half of `amount - 1`,
/// rounded up.
pub open spec fn reach_up(amount: nat) -> int {
    amount as int / 2
}

/// The largest offset to the other side among `amount` children: half of
/// `amount - 1`, rounded down.
pub open spec fn reach_down(amount: nat) -> int {
    (amount as int - 1) / 2
}

/// Whether one of `amount` children stands `steps` from the middle.
pub open spec fn taken(amount: nat, steps: int) -> bool {
    exists|ordinal: nat| ordinal < amount && offset(ordinal) == steps
}

/// The offset of the child with the given ordinal.
pub fn satellite_offset(ordinal: usize) -> (steps: i128)
    ensures
        steps == offset(ordinal as nat),
{
    let half: i128 = (ordinal / 2) as i128;
    if ordinal % 2 == 1 {
        half + 1
    } else {
        -half
    }
}

/// The offsets of `amount` children, by ordinal.
pub fn satellite_offsets(amount: usize) -> (steps: Vec<i128>)
    ensures
        steps.len() == amount,
        forall|i: int| 0 <= i < amount ==> steps[i] == offset(i as nat),
{
    let mut steps: Vec<i128> = Vec::new();
    let mut i: usize = 0;
    while i < amount
        invariant
            i <= amount,
            steps.len() == i,
            forall|k: int| 0 <= k < i ==> steps[k] == offset(k as nat),
        decreases amount - i,
    {
        steps.push(satellite_offset(i));
        i += 1;
    }
    steps
}

/// No child of `amount` stands further out than `reach_up` to one side and
/// `reach_down` to the other.
pub proof fn lemma_offset_within_reach(amount: nat, ordinal: nat)
    requires
        ordinal < amount,
    ensures
        -reach_down(amount) <= offset(ordinal) <= reach_up(amount),
{
}

/// Every place within reach is taken by a child.
pub proof fn lemma_offset_covers(amount: nat, steps: int)
    requires
        amount > 0,
        -reach_down(amount) <= steps <= reach_up(amount),
    ensures
        taken(amount, steps),
{
    let ordinal: nat = if steps > 0 {
        (2 * steps - 1) as nat
    } else {
        (-2 * steps) as nat
    };
    assert(ordinal < amount && offset(ordinal) == steps);
}

/// No two children stand at the same place.
pub proof fn lemma_offset_distinct(a: nat, b: nat)
    requires
        offset(a) == offset(b),
    ensures
        a == b,
{
}

/// The offsets of an odd number of children add up to nothing, those of an
/// even number to half that number.
pub proof fn lemma_offset_sum(amount: nat)
    ensures
        offset_sum(amount) == (if amount % 2 == 1 {
            0
        } else {
            amount as int / 2
        }),
    decreases amount,
{
    if amount > 0 {
        lemma_offset_sum((amount - 1) as nat);
    }
}

/// Law. An odd number of children stands symmetrically: they reach equally
/// far to both sides, half of `amount - 1` steps, take every place in
/// between once, and their offsets add up to nothing.
pub proof fn lemma_odd_fan_is_symmetric(amount: nat)
    requires
        amount % 2 == 1,
    ensures
        reach_up(amount) == reach_down(amount) == (amount - 1) / 2,
        forall|ordinal: nat|
            ordinal < amount ==> -reach_down(amount) <= #[trigger] offset(ordinal) <= reach_up(
                amount,
            ),
        forall|steps: int|
            -reach_down(amount) <= steps <= reach_up(amount) ==> #[trigger] taken(amount, steps),
        forall|a: nat, b: nat| #[trigger] offset(a) == #[trigger] offset(b) ==> a == b,
        offset_sum(amount) == 0,
{
    assert forall|steps: int|
        -reach_down(amount) <= steps <= reach_up(amount) implies #[trigger] taken(
        amount,
        steps,
    ) by {
        lemma_offset_covers(amount, steps);
    }
    lemma_offset_sum(amount);
}

} // verus!
