//! What holds of every schedule, whatever its blocks and its state.

use crate::node::TimeLinkedListNode;
use crate::ring::{
    ascending, in_effect, index_in_effect, lemma_in_effect_exists, lemma_in_effect_turned,
    lemma_in_effect_unique, lemma_turned_shape, lemma_turned_well_formed, turned, well_formed,
};
use crate::time::TimeOfDay;
use crate::time_linked_list::{DayLoop, DayView};
use vstd::prelude::*;

verus! {

/// A ring of one block never moves: catching up with any time leaves the
/// ring, the start of the block in effect and the state as they are, so no
/// hook has run.
pub proof fn lemma_single_block_stays<T: 'static>(
    before: DayView<T>,
    time: TimeOfDay,
    after: DayView<T>,
)
    requires
        well_formed(before.blocks),
        before.blocks.len() == 1,
        DayLoop::catches_up(before, time, after),
    ensures
        after == before,
{
    lemma_in_effect_exists(before.blocks, time);
}

/// A time before the active boundary moves nothing: catching up with it
/// leaves the ring, the state and the active boundary as they are, and the
/// time is still before the boundary afterwards.
pub proof fn lemma_ahead_stays<T: 'static>(before: DayView<T>, time: TimeOfDay, after: DayView<T>)
    requires
        time.key() < before.boundary.key(),
        DayLoop::catches_up(before, time, after),
    ensures
        after == before,
        time.key() < after.boundary.key(),
{
}

/// Catching up with a time at or past the active boundary leaves the block
/// in effect at `time` in front, and the active boundary at or before `time`.
pub proof fn lemma_catch_up_reaches<T: 'static>(
    before: DayView<T>,
    time: TimeOfDay,
    after: DayView<T>,
)
    requires
        well_formed(before.blocks),
        time.key() >= before.boundary.key(),
        DayLoop::catches_up(before, time, after),
    ensures
        well_formed(after.blocks),
        after.blocks.len() == before.blocks.len(),
        in_effect(after.blocks, 0, time),
        after.blocks[0] == before.blocks[index_in_effect(before.blocks, time)],
        after.boundary.key() <= time.key(),
{
    lemma_in_effect_exists(before.blocks, time);
    let steps = index_in_effect(before.blocks, time) as nat;
    lemma_turned_well_formed(before.blocks, steps);
    lemma_turned_shape(before.blocks, steps);
    lemma_in_effect_turned(before.blocks, time, steps);
}

/// Catching up is idempotent: a schedule that has caught up with `time`
/// stays as it is when it catches up with `time` again.
pub proof fn lemma_catch_up_idempotent<T: 'static>(
    before: DayView<T>,
    time: TimeOfDay,
    once: DayView<T>,
    twice: DayView<T>,
)
    requires
        well_formed(before.blocks),
        DayLoop::catches_up(before, time, once),
        DayLoop::catches_up(once, time, twice),
    ensures
        twice == once,
{
    if time.key() < before.boundary.key() {
        lemma_ahead_stays(before, time, once);
        lemma_ahead_stays(once, time, twice);
    } else {
        lemma_catch_up_reaches(before, time, once);
        lemma_in_effect_exists(once.blocks, time);
        lemma_in_effect_unique(once.blocks, time, 0, index_in_effect(once.blocks, time));
    }
}

/// A full round. From the first of `n` ascending blocks, step `j + 1` enters
/// the block at place `j + 1`, and the last step of the round enters the
/// first block again. That last step is the only one that goes past
/// midnight, and after it the ring stands as it did.
pub proof fn lemma_full_round<T>(blocks: Seq<TimeLinkedListNode<T>>)
    requires
        well_formed(blocks),
        ascending(blocks),
        blocks.len() >= 2,
    ensures
        forall|j: int|
            0 <= j < blocks.len() - 1 ==> (#[trigger] turned(blocks, (j + 1) as nat))[0]
                == blocks[j + 1],
        turned(blocks, blocks.len())[0] == blocks[0],
        turned(blocks, blocks.len()) == blocks,
        forall|j: int|
            0 <= j < blocks.len() ==> ((#[trigger] turned(blocks, (j + 1) as nat))[0].start.key()
                < turned(blocks, j as nat)[0].start.key() <==> j == blocks.len() - 1),
{
    let n = blocks.len();
    lemma_turned_shape(blocks, n);
    assert(turned(blocks, n) =~= blocks);
    assert forall|j: int| 0 <= j < n implies ((#[trigger] turned(blocks, (j + 1) as nat))[0]
        == blocks[if j + 1 < n {
        j + 1
    } else {
        0
    }] && turned(blocks, j as nat)[0] == blocks[j]) by {
        lemma_turned_shape(blocks, j as nat);
        lemma_turned_shape(blocks, (j + 1) as nat);
    }
    assert forall|j: int| 0 <= j < n implies ((#[trigger] turned(
        blocks,
        (j + 1) as nat,
    ))[0].start.key() < turned(blocks, j as nat)[0].start.key() <==> j == n - 1) by {
        if j + 1 < n {
            assert(blocks[j].start.key() < blocks[j + 1].start.key());
        } else {
            assert(blocks[0].start.key() < blocks[j].start.key());
        }
    }
}

} // verus!
