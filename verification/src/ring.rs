//! The order of the blocks of a day, read as a ring, in mathematical terms.

use crate::node::TimeLinkedListNode;
use crate::time::{offset, TimeOfDay};
use vstd::prelude::*;

verus! {

/// Whether each block starts later after the first block than the one before
/// it, on the circle of the day. No two blocks of such a ring start together.
pub open spec fn ordered<T>(blocks: Seq<TimeLinkedListNode<T>>) -> bool {
    forall|i: int, j: int|
        0 <= i < j < blocks.len() ==> offset(blocks[0].start, #[trigger] blocks[i].start) < offset(
            blocks[0].start,
            #[trigger] blocks[j].start,
        )
}

/// Whether some block starts at midnight.
pub open spec fn has_midnight<T>(blocks: Seq<TimeLinkedListNode<T>>) -> bool {
    exists|i: int| 0 <= i < blocks.len() && (#[trigger] blocks[i]).start.key() == 0
}

/// Whether some block starts at `start`.
pub open spec fn has_start<T>(blocks: Seq<TimeLinkedListNode<T>>, start: TimeOfDay) -> bool {
    exists|i: int| 0 <= i < blocks.len() && (#[trigger] blocks[i]).start == start
}

/// What holds of the blocks of every schedule: there is a block, one block
/// starts at midnight, and the blocks stand in the order of the day, read as a
/// ring from the first block on.
pub open spec fn well_formed<T>(blocks: Seq<TimeLinkedListNode<T>>) -> bool {
    &&& blocks.len() >= 1
    &&& ordered(blocks)
    &&& has_midnight(blocks)
}

/// Whether the blocks start one strictly after the other.
pub open spec fn ascending<T>(blocks: Seq<TimeLinkedListNode<T>>) -> bool {
    forall|i: int, j: int|
        0 <= i < j < blocks.len() ==> (#[trigger] blocks[i]).start.key() < (
        #[trigger] blocks[j]).start.key()
}

/// The ring after one step: the first block has moved behind the last.
pub open spec fn turn<T>(blocks: Seq<TimeLinkedListNode<T>>) -> Seq<TimeLinkedListNode<T>> {
    blocks.subrange(1, blocks.len() as int).push(blocks[0])
}

/// The ring after `steps` steps.
pub open spec fn turned<T>(blocks: Seq<TimeLinkedListNode<T>>, steps: nat) -> Seq<
    TimeLinkedListNode<T>,
>
    decreases steps,
{
    if steps == 0 {
        blocks
    } else {
        turn(turned(blocks, (steps - 1) as nat))
    }
}

/// Whether block `i` is the one in effect at `time`: it has started, and no
/// block that has started did so later.
pub open spec fn in_effect<T>(blocks: Seq<TimeLinkedListNode<T>>, i: int, time: TimeOfDay) -> bool {
    &&& 0 <= i < blocks.len()
    &&& blocks[i].start.key() <= time.key()
    &&& forall|j: int|
        0 <= j < blocks.len() && (#[trigger] blocks[j]).start.key() <= time.key()
            ==> blocks[j].start.key() <= blocks[i].start.key()
}

/// The place in the ring of the block in effect at `time`.
pub open spec fn index_in_effect<T>(blocks: Seq<TimeLinkedListNode<T>>, time: TimeOfDay) -> int {
    choose|i: int| in_effect(blocks, i, time)
}

/// Whether a block that starts at `start` belongs at place `at` of the ring:
/// behind the first block, after the blocks that start sooner after the first
/// block than it does, and before those that start later.
pub open spec fn is_slot<T>(blocks: Seq<TimeLinkedListNode<T>>, start: TimeOfDay, at: int) -> bool {
    &&& 1 <= at <= blocks.len()
    &&& forall|i: int|
        0 <= i < at ==> offset(blocks[0].start, (#[trigger] blocks[i]).start) < offset(
            blocks[0].start,
            start,
        )
    &&& forall|i: int|
        at <= i < blocks.len() ==> offset(blocks[0].start, start) < offset(
            blocks[0].start,
            (#[trigger] blocks[i]).start,
        )
}

/// The place at which a block that starts at `start` is put into the ring.
pub open spec fn slot<T>(blocks: Seq<TimeLinkedListNode<T>>, start: TimeOfDay) -> int {
    choose|at: int| is_slot(blocks, start, at)
}

/// Whether going from block `from` to block `to` can turn the state `before`
/// into `after`: `from` is left first, then `to` is entered.
pub open spec fn crossing<T>(
    from: TimeLinkedListNode<T>,
    to: TimeLinkedListNode<T>,
    before: T,
    after: T,
) -> bool {
    exists|between: T|
        #![trigger from.leave.relates(before, between)]
        from.leave.relates(before, between) && to.enter.relates(between, after)
}

/// Whether `steps` steps round the ring can turn the state `before` into
/// `after`, each step leaving the block that was first and entering the one
/// behind it.
pub open spec fn fired<T>(
    blocks: Seq<TimeLinkedListNode<T>>,
    steps: nat,
    before: T,
    after: T,
) -> bool
    decreases steps,
{
    if steps == 0 {
        after == before
    } else {
        exists|mid: T|
            fired(blocks, (steps - 1) as nat, before, mid) && #[trigger] crossing(
                turned(blocks, (steps - 1) as nat)[0],
                turned(blocks, steps)[0],
                mid,
                after,
            )
    }
}

/// Whether the hook that runs at place `i` of a run of steps admits
/// `during`. Each step first runs the `leave` of the block in front, then the
/// `enter` of the block that the step brings to the front.
pub open spec fn admits_at<T>(blocks: Seq<TimeLinkedListNode<T>>, i: int, during: &mut T) -> bool {
    if i % 2 == 0 {
        turned(blocks, (i / 2) as nat)[0].leave.admits(during)
    } else {
        turned(blocks, ((i + 1) / 2) as nat)[0].enter.admits(during)
    }
}

/// Whether the hook that runs at place `i` of a run of steps relates
/// `before` to `after`.
pub open spec fn relates_at<T>(
    blocks: Seq<TimeLinkedListNode<T>>,
    i: int,
    before: T,
    after: T,
) -> bool {
    if i % 2 == 0 {
        turned(blocks, (i / 2) as nat)[0].leave.relates(before, after)
    } else {
        turned(blocks, ((i + 1) / 2) as nat)[0].enter.relates(before, after)
    }
}

/// Whether `trace` and `states` record a run of `steps` steps: `trace` holds
/// the mutable reference that each hook worked through, in the order in which
/// the hooks ran, and `states` the state before each hook and after the last.
/// Each hook admits its reference and relates the state before it to the
/// state after it, and each reference starts at the state before its hook.
/// That each reference ends at the state after its hook is said beside this
/// predicate wherever it is used.
pub open spec fn walked<T>(
    blocks: Seq<TimeLinkedListNode<T>>,
    steps: nat,
    trace: Seq<&mut T>,
    states: Seq<T>,
) -> bool {
    &&& trace.len() == 2 * steps
    &&& states.len() == 2 * steps + 1
    &&& forall|i: int|
        0 <= i < 2 * steps ==> {
            &&& admits_at(blocks, i, #[trigger] trace[i])
            &&& mut_ref_current(trace[i]) == states[i]
            &&& relates_at(blocks, i, states[i], states[i + 1])
        }
}

/// A record of `steps` steps and a record of the step that follows make a
/// record of `steps + 1` steps.
pub proof fn lemma_walked_next<T>(
    blocks: Seq<TimeLinkedListNode<T>>,
    steps: nat,
    trace: Seq<&mut T>,
    states: Seq<T>,
    step_trace: Seq<&mut T>,
    step_states: Seq<T>,
)
    requires
        walked(blocks, steps, trace, states),
        walked(turned(blocks, steps), 1, step_trace, step_states),
        step_states[0] == states[2 * (steps as int)],
    ensures
        walked(blocks, steps + 1, trace + step_trace, states + step_states.subrange(1, 3)),
{
    let front = turned(blocks, steps);
    reveal_with_fuel(turned, 2);
    assert(turned(front, 0) == front);
    assert(turned(front, 1) == turned(blocks, steps + 1));
    let longer = trace + step_trace;
    let more = states + step_states.subrange(1, 3);
    assert forall|i: int| 0 <= i < 2 * (steps + 1) implies {
        &&& admits_at(blocks, i, #[trigger] longer[i])
        &&& mut_ref_current(longer[i]) == more[i]
        &&& relates_at(blocks, i, more[i], more[i + 1])
    } by {
        if i < 2 * steps {
            assert(longer[i] == trace[i]);
            assert(more[i] == states[i]);
            assert(more[i + 1] == states[i + 1]);
        } else {
            let k = i - 2 * steps;
            assert(longer[i] == step_trace[k]);
            assert(more[i + 1] == step_states[k + 1]);
            assert(more[i] == step_states[k]);
            assert(admits_at(blocks, i, step_trace[k]) == admits_at(front, k, step_trace[k]));
            assert(relates_at(blocks, i, step_states[k], step_states[k + 1]) == relates_at(
                front,
                k,
                step_states[k],
                step_states[k + 1],
            ));
        }
    }
}

/// A step keeps the length of the ring and what holds of every ring.
pub proof fn lemma_turn_well_formed<T>(blocks: Seq<TimeLinkedListNode<T>>)
    requires
        well_formed(blocks),
    ensures
        well_formed(turn(blocks)),
        turn(blocks).len() == blocks.len(),
{
    let next = turn(blocks);
    let n = blocks.len() as int;
    if n == 1 {
        assert(next =~= blocks);
    } else {
        assert forall|i: int, j: int| 0 <= i < j < next.len() implies offset(
            next[0].start,
            #[trigger] next[i].start,
        ) < offset(next[0].start, #[trigger] next[j].start) by {
            assert(next[0] == blocks[1]);
            assert(next[i] == blocks[i + 1]);
            assert(offset(blocks[0].start, blocks[0].start) < offset(
                blocks[0].start,
                blocks[1].start,
            ));
            if i > 0 {
                assert(offset(blocks[0].start, blocks[1].start) < offset(
                    blocks[0].start,
                    blocks[i + 1].start,
                ));
            }
            if j < n - 1 {
                assert(next[j] == blocks[j + 1]);
                assert(offset(blocks[0].start, blocks[i + 1].start) < offset(
                    blocks[0].start,
                    blocks[j + 1].start,
                ));
            } else {
                assert(next[j] == blocks[0]);
            }
        }
        let m = choose|m: int| 0 <= m < blocks.len() && (#[trigger] blocks[m]).start.key() == 0;
        if m == 0 {
            assert(next[n - 1] == blocks[0]);
        } else {
            assert(next[m - 1] == blocks[m]);
        }
    }
}

/// A ring has one place at most for a block that starts at a given time.
pub proof fn lemma_slot_unique<T>(
    blocks: Seq<TimeLinkedListNode<T>>,
    start: TimeOfDay,
    at: int,
    other: int,
)
    requires
        is_slot(blocks, start, at),
        is_slot(blocks, start, other),
    ensures
        at == other,
{
    if at < other {
        assert(offset(blocks[0].start, blocks[at].start) < offset(blocks[0].start, start));
    } else if other < at {
        assert(offset(blocks[0].start, blocks[other].start) < offset(blocks[0].start, start));
    }
}

/// In a ring that starts with its midnight block the blocks ascend.
pub proof fn lemma_ascending_from_midnight<T>(blocks: Seq<TimeLinkedListNode<T>>)
    requires
        well_formed(blocks),
    ensures
        ascending(blocks) <==> blocks[0].start.key() == 0,
{
    if ascending(blocks) {
        let m = choose|m: int| 0 <= m < blocks.len() && (#[trigger] blocks[m]).start.key() == 0;
        if m > 0 {
            assert(blocks[0].start.key() < blocks[m].start.key());
        }
    }
    if blocks[0].start.key() == 0 {
        assert forall|i: int, j: int| 0 <= i < j < blocks.len() implies (
        #[trigger] blocks[i]).start.key() < (#[trigger] blocks[j]).start.key() by {
            assert(offset(blocks[0].start, blocks[i].start) < offset(
                blocks[0].start,
                blocks[j].start,
            ));
        }
    }
}

/// Putting a block at its place keeps what holds of every ring, and keeps an
/// ascending ring ascending. A block has a place only where no block of the
/// ring starts when it does.
pub proof fn lemma_insert_well_formed<T>(
    blocks: Seq<TimeLinkedListNode<T>>,
    node: TimeLinkedListNode<T>,
    at: int,
)
    requires
        well_formed(blocks),
        is_slot(blocks, node.start, at),
    ensures
        well_formed(blocks.insert(at, node)),
        ascending(blocks) ==> ascending(blocks.insert(at, node)),
        !has_start(blocks, node.start),
        slot(blocks, node.start) == at,
{
    let grown = blocks.insert(at, node);
    let front = blocks[0].start;
    assert(grown[0] == blocks[0]);
    assert forall|i: int, j: int| 0 <= i < j < grown.len() implies offset(
        grown[0].start,
        #[trigger] grown[i].start,
    ) < offset(grown[0].start, #[trigger] grown[j].start) by {
        let a = if i < at { i } else { i - 1 };
        let b = if j < at { j } else { j - 1 };
        if i != at {
            assert(grown[i] == blocks[a]);
        }
        if j != at {
            assert(grown[j] == blocks[b]);
        }
        if i != at && j != at {
            assert(offset(front, blocks[a].start) < offset(front, blocks[b].start));
        }
    }
    let m = choose|m: int| 0 <= m < blocks.len() && (#[trigger] blocks[m]).start.key() == 0;
    if m < at {
        assert(grown[m] == blocks[m]);
    } else {
        assert(grown[m + 1] == blocks[m]);
    }
    assert forall|i: int| 0 <= i < blocks.len() implies (#[trigger] blocks[i]).start
        != node.start by {
        if i < at {
            assert(offset(front, blocks[i].start) < offset(front, node.start));
        } else {
            assert(offset(front, node.start) < offset(front, blocks[i].start));
        }
    }
    let chosen = slot(blocks, node.start);
    lemma_slot_unique(blocks, node.start, at, chosen);
    if ascending(blocks) {
        lemma_ascending_from_midnight(blocks);
        lemma_ascending_from_midnight(grown);
    }
}

/// One more crossing lengthens a run of steps by one.
pub proof fn lemma_fired_next<T>(
    blocks: Seq<TimeLinkedListNode<T>>,
    steps: nat,
    before: T,
    mid: T,
    after: T,
)
    requires
        fired(blocks, steps, before, mid),
        crossing(turned(blocks, steps)[0], turned(blocks, steps + 1)[0], mid, after),
    ensures
        fired(blocks, steps + 1, before, after),
{
    let more = steps + 1;
    assert((more - 1) as nat == steps);
}

/// After `steps` steps, no more than the ring has blocks, the ring starts with
/// the block that stood at place `steps` and goes on from there, round to the
/// block before it.
pub proof fn lemma_turned_shape<T>(blocks: Seq<TimeLinkedListNode<T>>, steps: nat)
    requires
        blocks.len() >= 1,
        steps <= blocks.len(),
    ensures
        turned(blocks, steps) == blocks.subrange(steps as int, blocks.len() as int)
            + blocks.subrange(0, steps as int),
        turned(blocks, steps).len() == blocks.len(),
    decreases steps,
{
    let n = blocks.len() as int;
    if steps == 0 {
        assert(blocks.subrange(0, n) + blocks.subrange(0, 0) =~= blocks);
    } else {
        lemma_turned_shape(blocks, (steps - 1) as nat);
        let before = turned(blocks, (steps - 1) as nat);
        assert(turn(before) =~= blocks.subrange(steps as int, n) + blocks.subrange(
            0,
            steps as int,
        ));
    }
}

/// However many steps are taken, the ring keeps its length and what holds of
/// every ring.
pub proof fn lemma_turned_well_formed<T>(blocks: Seq<TimeLinkedListNode<T>>, steps: nat)
    requires
        well_formed(blocks),
    ensures
        well_formed(turned(blocks, steps)),
        turned(blocks, steps).len() == blocks.len(),
    decreases steps,
{
    if steps > 0 {
        lemma_turned_well_formed(blocks, (steps - 1) as nat);
        lemma_turn_well_formed(turned(blocks, (steps - 1) as nat));
    }
}

/// At most one block is in effect at a time.
pub proof fn lemma_in_effect_unique<T>(
    blocks: Seq<TimeLinkedListNode<T>>,
    time: TimeOfDay,
    i: int,
    j: int,
)
    requires
        well_formed(blocks),
        in_effect(blocks, i, time),
        in_effect(blocks, j, time),
    ensures
        i == j,
{
    assert(blocks[i].start.key() == blocks[j].start.key());
    if i < j {
        assert(offset(blocks[0].start, blocks[i].start) < offset(blocks[0].start, blocks[j].start));
    } else if j < i {
        assert(offset(blocks[0].start, blocks[j].start) < offset(blocks[0].start, blocks[i].start));
    }
}

proof fn lemma_latest_from<T>(
    blocks: Seq<TimeLinkedListNode<T>>,
    time: TimeOfDay,
    best: int,
    from: int,
) -> (i: int)
    requires
        0 <= best < blocks.len(),
        0 <= from <= blocks.len(),
        blocks[best].start.key() <= time.key(),
        forall|j: int|
            0 <= j < from && (#[trigger] blocks[j]).start.key() <= time.key()
                ==> blocks[j].start.key() <= blocks[best].start.key(),
    ensures
        in_effect(blocks, i, time),
    decreases blocks.len() - from,
{
    if from == blocks.len() {
        best
    } else if blocks[from].start.key() <= time.key() && blocks[from].start.key()
        > blocks[best].start.key() {
        lemma_latest_from(blocks, time, from, from + 1)
    } else {
        lemma_latest_from(blocks, time, best, from + 1)
    }
}

/// At every time one block of the ring is in effect.
pub proof fn lemma_in_effect_exists<T>(blocks: Seq<TimeLinkedListNode<T>>, time: TimeOfDay)
    requires
        well_formed(blocks),
    ensures
        in_effect(blocks, index_in_effect(blocks, time), time),
{
    let m = choose|m: int| 0 <= m < blocks.len() && (#[trigger] blocks[m]).start.key() == 0;
    let i = lemma_latest_from(blocks, time, m, 0);
}

/// The first block is the one in effect exactly when it is alone or the
/// block behind it starts later after it than `time` lies.
pub proof fn lemma_front_in_effect<T>(blocks: Seq<TimeLinkedListNode<T>>, time: TimeOfDay)
    requires
        well_formed(blocks),
    ensures
        in_effect(blocks, 0, time) <==> (blocks.len() == 1 || offset(blocks[0].start, time)
            < offset(blocks[0].start, blocks[1].start)),
{
    let front = blocks[0].start;
    let m = choose|m: int| 0 <= m < blocks.len() && (#[trigger] blocks[m]).start.key() == 0;
    if blocks.len() > 1 {
        assert(offset(front, blocks[0].start) < offset(front, blocks[1].start));
        if offset(front, time) < offset(front, blocks[1].start) {
            if m > 1 {
                assert(offset(front, blocks[1].start) < offset(front, blocks[m].start));
            }
            assert(front.key() <= time.key());
            assert forall|j: int|
                0 <= j < blocks.len() && (#[trigger] blocks[j]).start.key()
                    <= time.key() implies blocks[j].start.key() <= front.key() by {
                if j > 1 {
                    assert(offset(front, blocks[1].start) < offset(front, blocks[j].start));
                }
            }
        }
    } else {
        assert(m == 0);
    }
}

/// The block in effect stays the same block when the ring turns: where
/// block `steps` is in effect, it is the first block after `steps` steps.
pub proof fn lemma_in_effect_turned<T>(
    blocks: Seq<TimeLinkedListNode<T>>,
    time: TimeOfDay,
    steps: nat,
)
    requires
        blocks.len() >= 1,
        steps < blocks.len(),
    ensures
        in_effect(blocks, steps as int, time) <==> in_effect(turned(blocks, steps), 0, time),
{
    lemma_turned_shape(blocks, steps);
    let after = turned(blocks, steps);
    let n = blocks.len() as int;
    assert(after[0] == blocks[steps as int]);
    if in_effect(blocks, steps as int, time) {
        assert forall|j: int|
            0 <= j < after.len() && (#[trigger] after[j]).start.key()
                <= time.key() implies after[j].start.key() <= after[0].start.key() by {
            if j < n - steps {
                assert(after[j] == blocks[j + steps]);
            } else {
                assert(after[j] == blocks[j - (n - steps)]);
            }
        }
    }
    if in_effect(after, 0, time) {
        assert forall|j: int|
            0 <= j < blocks.len() && (#[trigger] blocks[j]).start.key()
                <= time.key() implies blocks[j].start.key() <= blocks[steps as int].start.key() by {
            if j >= steps {
                assert(after[j - steps] == blocks[j]);
            } else {
                assert(after[j + (n - steps)] == blocks[j]);
            }
        }
    }
}

} // verus!
