//! The schedule itself: a ring of blocks, the state the hooks work on, and
//! the lazy catch-up over the boundaries that have passed.

use crate::node::TimeLinkedListNode;
use crate::ring::{
    ascending, crossing, fired, has_start, in_effect, index_in_effect, is_slot,
    lemma_fired_next, lemma_front_in_effect, lemma_in_effect_turned, lemma_in_effect_unique,
    lemma_insert_well_formed, lemma_turn_well_formed, lemma_turned_shape, lemma_walked_next,
    admits_at, relates_at, slot, turn, turned, walked, well_formed,
};
use crate::time::{offset, TimeOfDay, TimeSource};
use std::collections::VecDeque;
use vstd::prelude::*;

verus! {

/// What a schedule holds, as mathematics: the ring of blocks, the first of
/// which is the block that was entered last, the state, and the active
/// boundary.
#[verifier::reject_recursive_types(T)]
pub struct DayView<T> {
    pub blocks: Seq<TimeLinkedListNode<T>>,
    pub payload: T,
    pub boundary: TimeOfDay,
}

/// A day that repeats: blocks in the order of the day, the state that their
/// hooks change, the active boundary, and the source of the current time.
///
/// The active boundary is the reading of the source taken when the schedule
/// was made, until the first step; from then on it is the start of the block
/// entered last. A schedule catches up with a time only where that time is
/// at or past the active boundary.
///
/// A schedule on the wall clock reads it through chrono, which panics where
/// the system clock stands before 1970 and can panic where the data of the
/// local time zone cannot be read.
#[verifier::reject_recursive_types(T)]
pub struct DayLoop<T> {
    blocks: VecDeque<TimeLinkedListNode<T>>,
    next_tick: TimeOfDay,
    data: T,
    source: TimeSource,
}

impl<T> View for DayLoop<T> {
    type V = DayView<T>;

    closed spec fn view(&self) -> DayView<T> {
        DayView { blocks: self.blocks@, payload: self.data, boundary: self.next_tick }
    }
}

impl<T: 'static> DayLoop<T> {
    /// Where the schedule reads the current time from.
    pub closed spec fn source(&self) -> TimeSource {
        self.source
    }

    /// The invariant of a schedule.
    pub open spec fn wf(&self) -> bool {
        well_formed(self@.blocks)
    }

    /// The active boundary.
    pub open spec fn boundary(&self) -> TimeOfDay {
        self@.boundary
    }

    /// What one step does: the block in front is left and goes behind the
    /// last block, the block behind it is entered and comes to the front,
    /// its start becomes the active boundary, and `wrapped` tells whether it
    /// starts earlier in the day than the block that was left.
    pub open spec fn steps(before: DayView<T>, after: DayView<T>, wrapped: bool) -> bool {
        &&& after.blocks == turn(before.blocks)
        &&& crossing(before.blocks[0], after.blocks[0], before.payload, after.payload)
        &&& after.boundary == after.blocks[0].start
        &&& wrapped == (after.blocks[0].start.key() < before.blocks[0].start.key())
    }

    /// How many steps catching up with `time` takes: none for a time before
    /// the active boundary, else as many as bring the block in effect at
    /// `time` to the front.
    pub open spec fn hops(before: DayView<T>, time: TimeOfDay) -> nat {
        if time.key() < before.boundary.key() {
            0
        } else {
            index_in_effect(before.blocks, time) as nat
        }
    }

    /// What catching up with `time` does: the ring takes `hops` steps, the
    /// hooks of the boundaries crossed run in the order of the ring, and the
    /// active boundary is the start of the block entered last, or stays
    /// where no step was taken.
    pub open spec fn catches_up(before: DayView<T>, time: TimeOfDay, after: DayView<T>) -> bool {
        let steps = Self::hops(before, time);
        &&& after.blocks == turned(before.blocks, steps)
        &&& fired(before.blocks, steps, before.payload, after.payload)
        &&& after.boundary == if steps == 0 {
            before.boundary
        } else {
            after.blocks[0].start
        }
    }

    /// A new schedule: one block, which starts at midnight and has no hooks.
    pub open spec fn fresh(data: T, boundary: TimeOfDay) -> DayView<T> {
        DayView {
            blocks: seq![TimeLinkedListNode::plain(TimeOfDay::midnight())],
            payload: data,
            boundary,
        }
    }

    /// A schedule on the wall clock with one block, which starts at midnight
    /// and has no hooks. The active boundary is a reading of the clock, which
    /// can panic, as `TimeSource::now` says.
    pub fn new(data: T) -> (day: Self)
        ensures
            day.wf(),
            day@ == Self::fresh(data, day.boundary()),
            ascending(day@.blocks),
            day.source() == TimeSource::Wall,
            TimeSource::Wall.may_read(day.boundary()),
    {
        Self::with_time_source(data, TimeSource::Wall)
    }

    /// A schedule like that of `new`, on the given source of time. The
    /// active boundary is a reading of that source; on the wall clock the
    /// reading can panic, as `TimeSource::now` says.
    pub fn with_time_source(data: T, source: TimeSource) -> (day: Self)
        ensures
            day.wf(),
            day@ == Self::fresh(data, day.boundary()),
            ascending(day@.blocks),
            day.source() == source,
            source.may_read(day.boundary()),
    {
        let mut blocks = VecDeque::new();
        blocks.push_back(TimeLinkedListNode::new(TimeOfDay::midnight()));
        let next_tick = source.now();
        let day = DayLoop { blocks, next_tick, data, source };
        assert(day@.blocks =~= Self::fresh(data, next_tick).blocks);
        assert(day@.blocks[0].start.key() == 0);
        day
    }

    /// Does nothing: the block that comes next stands behind the front block
    /// and needs no preparing.
    pub fn next_block(&self) {
    }

    /// Puts `node` into the ring at its place in the order of the day, behind
    /// the front block. A block that starts when a block of the ring does is
    /// turned away: the ring stays as it is and the result is `false`.
    pub fn insert(&mut self, node: TimeLinkedListNode<T>) -> (inserted: bool)
        requires
            old(self).wf(),
        ensures
            final(self).wf(),
            inserted == !has_start(old(self)@.blocks, node.start),
            inserted ==> final(self)@.blocks == old(self)@.blocks.insert(
                slot(old(self)@.blocks, node.start),
                node,
            ) && is_slot(old(self)@.blocks, node.start, slot(old(self)@.blocks, node.start)),
            !inserted ==> final(self)@.blocks == old(self)@.blocks,
            final(self)@.blocks[0] == old(self)@.blocks[0],
            final(self)@.payload == old(self)@.payload,
            final(self).source() == old(self).source(),
            final(self).boundary() == old(self).boundary(),
            ascending(old(self)@.blocks) ==> ascending(final(self)@.blocks),
    {
        let front = self.blocks[0].start;
        let n = self.blocks.len();
        let mut at: usize = 1;
        while at < n && front.sooner(&self.blocks[at].start, &node.start)
            invariant
                1 <= at <= n,
                n == self.blocks@.len(),
                front == self.blocks@[0].start,
                forall|i: int|
                    1 <= i < at ==> offset(front, (#[trigger] self.blocks@[i]).start) < offset(
                        front,
                        node.start,
                    ),
            decreases n - at,
        {
            at += 1;
        }
        if node.start == front || (at < n && self.blocks[at].start == node.start) {
            return false;
        }
        proof {
            let blocks = self.blocks@;
            assert forall|i: int| at <= i < blocks.len() implies offset(front, node.start)
                < offset(front, (#[trigger] blocks[i]).start) by {
                if i > at {
                    assert(offset(front, blocks[at as int].start) < offset(
                        front,
                        blocks[i].start,
                    ));
                }
            }
            assert(is_slot(blocks, node.start, at as int));
            lemma_insert_well_formed(blocks, node, at as int);
        }
        self.blocks.insert(at, node);
        true
    }

    /// Advances by one boundary: runs the `leave` of the front block and the
    /// `enter` of the block behind it, which comes to the front. Returns
    /// whether the step went past midnight.
    pub fn forward(&mut self) -> (wrapped: bool)
        requires
            old(self).wf(),
        ensures
            final(self).wf(),
            Self::steps(old(self)@, final(self)@, wrapped),
            exists|trace: Seq<&mut T>, states: Seq<T>|
                #![trigger walked(old(self)@.blocks, 1, trace, states)]
                walked(old(self)@.blocks, 1, trace, states) && states[0] == old(self)@.payload
                    && states.last() == final(self)@.payload && (forall|i: int|
                    0 <= i < trace.len() ==> mut_ref_future(#[trigger] trace[i]) == states[i + 1]),
            final(self)@.blocks.len() == old(self)@.blocks.len(),
            final(self).source() == old(self).source(),
    {
        let ghost before = self.data;
        self.blocks[0].leave.apply(&mut self.data);
        let ghost between = self.data;
        let single = self.blocks.len() == 1;
        if single {
            self.blocks[0].enter.apply(&mut self.data);
        } else {
            self.blocks[1].enter.apply(&mut self.data);
        }
        let wrapped = !single && self.blocks[1].start.is_before(&self.blocks[0].start);
        if !single {
            if let Some(left) = self.blocks.pop_front() {
                self.blocks.push_back(left);
            }
        }
        self.next_tick = self.blocks[0].start;
        proof {
            let blocks = old(self)@.blocks;
            lemma_turn_well_formed(blocks);
            assert(self@.blocks =~= turn(blocks));
            reveal_with_fuel(turned, 2);
            assert(turned(blocks, 0) == blocks);
            assert(turned(blocks, 1) == turn(blocks));
            let entry = if single {
                blocks[0]
            } else {
                blocks[1]
            };
            assert(turn(blocks)[0] == entry);
            assert(blocks[0].leave.relates(before, between));
            assert(entry.enter.relates(between, self.data));
            let left = choose|left: &mut T|
                mut_ref_current(left) == before && mut_ref_future(left) == between
                    && #[trigger] blocks[0].leave.admits(left);
            let entered = choose|entered: &mut T|
                mut_ref_current(entered) == between && mut_ref_future(entered) == self.data
                    && #[trigger] turn(blocks)[0].enter.admits(entered);
            let trace = seq![left, entered];
            let states = seq![before, between, self.data];
            assert(blocks[0].leave.admits(left));
            assert(entry.enter.admits(entered));
            assert forall|i: int| 0 <= i < 2 implies {
                &&& admits_at(blocks, i, #[trigger] trace[i])
                &&& mut_ref_current(trace[i]) == states[i]
                &&& relates_at(blocks, i, states[i], states[i + 1])
            } by {
                if i == 0 {
                    assert(trace[0] == left);
                } else {
                    assert(trace[1] == entered);
                }
            }
            assert(walked(blocks, 1, trace, states));
            assert(forall|i: int|
                0 <= i < trace.len() ==> mut_ref_future(#[trigger] trace[i]) == states[i + 1]);
        }
        wrapped
    }

    /// Whether a boundary has been reached at `time` that the ring has not
    /// crossed yet, so that the front block is not the one in effect.
    pub fn has_pending(&self, time: TimeOfDay) -> (pending: bool)
        requires
            self.wf(),
        ensures
            pending == !in_effect(self@.blocks, 0, time),
            self@.blocks.len() == 1 ==> !pending,
    {
        proof {
            lemma_front_in_effect(self@.blocks, time);
        }
        self.blocks.len() > 1 && !self.blocks[0].start.sooner(&time, &self.blocks[1].start)
    }

    /// Catches up with `time`. For a time before the active boundary nothing
    /// happens. For a time at or past it the schedule steps forward until the
    /// block in effect at `time` is in front, and stays as it is where that
    /// block is in front already.
    pub fn forward_to(&mut self, time: TimeOfDay)
        requires
            old(self).wf(),
        ensures
            final(self).wf(),
            Self::catches_up(old(self)@, time, final(self)@),
            exists|trace: Seq<&mut T>, states: Seq<T>|
                #![trigger walked(old(self)@.blocks, Self::hops(old(self)@, time), trace, states)]
                walked(old(self)@.blocks, Self::hops(old(self)@, time), trace, states)
                    && states[0] == old(self)@.payload
                    && states.last() == final(self)@.payload
                    && (forall|i: int|
                    0 <= i < trace.len() ==> mut_ref_future(#[trigger] trace[i]) == states[i + 1]),
            time.key() < old(self).boundary().key() ==> final(self)@ == old(self)@,
            time.key() >= old(self).boundary().key() ==> in_effect(final(self)@.blocks, 0, time)
                && in_effect(old(self)@.blocks, index_in_effect(old(self)@.blocks, time), time),
            in_effect(old(self)@.blocks, 0, time) ==> final(self)@ == old(self)@,
            old(self)@.blocks.len() == 1 ==> final(self)@ == old(self)@,
            final(self)@.blocks.len() == old(self)@.blocks.len(),
            final(self).source() == old(self).source(),
    {
        let ghost start = self@;
        if time.is_before(&self.next_tick) {
            proof {
                let trace = Seq::<&mut T>::empty();
                let states = seq![start.payload];
                assert(walked(start.blocks, 0, trace, states));
            }
            return ;
        }
        let ghost first = start.blocks[0].start;
        let ghost n = start.blocks.len();
        let ghost mut steps: nat = 0;
        proof {
            assert(walked(start.blocks, 0, Seq::<&mut T>::empty(), seq![start.payload]));
        }
        while self.has_pending(time)
            invariant
                self.wf(),
                well_formed(start.blocks),
                n == start.blocks.len(),
                first == start.blocks[0].start,
                steps < n,
                self@.blocks == turned(start.blocks, steps),
                self@.boundary == if steps == 0 {
                    start.boundary
                } else {
                    self@.blocks[0].start
                },
                fired(start.blocks, steps, start.payload, self@.payload),
                exists|trace: Seq<&mut T>, states: Seq<T>|
                    #![trigger walked(start.blocks, steps, trace, states)]
                    walked(start.blocks, steps, trace, states) && states[0] == start.payload
                        && states.last() == self@.payload && (forall|i: int|
                        0 <= i < trace.len() ==> mut_ref_future(#[trigger] trace[i]) == states[i
                            + 1]),
                offset(first, start.blocks[steps as int].start) + offset(
                    start.blocks[steps as int].start,
                    time,
                ) == offset(first, time),
                self.source() == old(self).source(),
            decreases offset(self@.blocks[0].start, time),
        {
            let ghost before = self@;
            proof {
                lemma_turned_shape(start.blocks, steps);
                lemma_front_in_effect(before.blocks, time);
                assert(before.blocks[0] == start.blocks[steps as int]);
                assert(offset(first, start.blocks[0].start) < offset(
                    first,
                    start.blocks[n - 1].start,
                ));
                if steps + 1 < n {
                    assert(before.blocks[1] == start.blocks[(steps + 1) as int]);
                    assert(offset(first, start.blocks[steps as int].start) < offset(
                        first,
                        start.blocks[(steps + 1) as int].start,
                    ));
                } else {
                    assert(before.blocks[1] == start.blocks[0]);
                }
            }
            self.forward();
            proof {
                assert(self@.blocks == turned(start.blocks, steps + 1));
                lemma_fired_next(start.blocks, steps, start.payload, before.payload, self@.payload);
                let (trace, states) = choose|trace: Seq<&mut T>, states: Seq<T>|
                    #![trigger walked(start.blocks, steps, trace, states)]
                    walked(start.blocks, steps, trace, states) && states[0] == start.payload
                        && states.last() == before.payload && (forall|i: int|
                        0 <= i < trace.len() ==> mut_ref_future(#[trigger] trace[i]) == states[i
                            + 1]);
                let (step_trace, step_states) = choose|step_trace: Seq<&mut T>, step_states: Seq<T>|
                    #![trigger walked(before.blocks, 1, step_trace, step_states)]
                    walked(before.blocks, 1, step_trace, step_states) && step_states[0]
                        == before.payload && step_states.last() == self@.payload && (forall|i: int|
                        0 <= i < step_trace.len() ==> mut_ref_future(#[trigger] step_trace[i])
                            == step_states[i + 1]);
                lemma_walked_next(start.blocks, steps, trace, states, step_trace, step_states);
                let longer = trace + step_trace;
                let more = states + step_states.subrange(1, 3);
                assert forall|i: int| 0 <= i < longer.len() implies mut_ref_future(
                    #[trigger] longer[i],
                ) == more[i + 1] by {
                    if i < trace.len() {
                        assert(longer[i] == trace[i]);
                    } else {
                        assert(longer[i] == step_trace[i - trace.len()]);
                    }
                }
                assert(more[0] == start.payload);
                assert(more.last() == self@.payload);
                steps = steps + 1;
                assert(walked(start.blocks, steps, longer, more));
                lemma_turned_shape(start.blocks, steps);
            }
        }
        proof {
            lemma_turned_shape(start.blocks, steps);
            lemma_in_effect_turned(start.blocks, time, steps);
            let chosen = index_in_effect(start.blocks, time);
            lemma_in_effect_unique(start.blocks, time, steps as int, chosen);
            if in_effect(start.blocks, 0, time) {
                lemma_in_effect_unique(start.blocks, time, steps as int, 0);
            }
            if n == 1 {
                assert(self@.blocks == start.blocks);
            }
            assert(steps == Self::hops(start, time));
        }
    }

    /// Catches up with the current time of the schedule's source, as
    /// `forward_to` does with the reading. On the wall clock the reading can
    /// panic, as `TimeSource::now` says.
    pub fn forward_to_now(&mut self)
        requires
            old(self).wf(),
        ensures
            final(self).wf(),
            exists|now: TimeOfDay, trace: Seq<&mut T>, states: Seq<T>|
                #![trigger walked(old(self)@.blocks, Self::hops(old(self)@, now), trace, states)]
                old(self).source().may_read(now) && Self::catches_up(
                    old(self)@,
                    now,
                    final(self)@,
                ) && walked(old(self)@.blocks, Self::hops(old(self)@, now), trace, states)
                    && states[0] == old(self)@.payload && states.last()
                    == final(self)@.payload && (forall|i: int|
                    0 <= i < trace.len() ==> mut_ref_future(#[trigger] trace[i]) == states[i + 1]),
            old(self)@.blocks.len() == 1 ==> final(self)@ == old(self)@,
            final(self)@.blocks.len() == old(self)@.blocks.len(),
            final(self).source() == old(self).source(),
    {
        let now = self.source.now();
        self.forward_to(now);
        proof {
            let (trace, states) = choose|trace: Seq<&mut T>, states: Seq<T>|
                #![trigger walked(old(self)@.blocks, Self::hops(old(self)@, now), trace, states)]
                walked(old(self)@.blocks, Self::hops(old(self)@, now), trace, states) && states[0]
                    == old(self)@.payload && states.last()
                    == self@.payload && (forall|i: int|
                    0 <= i < trace.len() ==> mut_ref_future(#[trigger] trace[i]) == states[i + 1]);
            assert(walked(old(self)@.blocks, Self::hops(old(self)@, now), trace, states));
        }
    }

    /// Whether `time` is the active boundary or comes after it.
    #[inline]
    pub fn is_outdated_by(&self, time: TimeOfDay) -> (outdated: bool)
        ensures
            outdated == (time.key() >= self.boundary().key()),
    {
        time.is_at_or_after(&self.next_tick)
    }

    /// Whether the current time of the schedule's source is the active
    /// boundary or comes after it. On the wall clock the reading can panic,
    /// as `TimeSource::now` says.
    #[inline]
    pub fn is_outdated_by_now(&self) -> (outdated: bool)
        ensures
            exists|now: TimeOfDay|
                #![trigger self.source().may_read(now)]
                self.source().may_read(now) && outdated == (now.key() >= self.boundary().key()),
    {
        let now = self.source.now();
        assert(self.source().may_read(now));
        self.is_outdated_by(now)
    }

    /// Whether the state may be read at `time` without catching up: the ring
    /// has one block at most, or `time` is not past the active boundary.
    pub fn is_current_at(&self, time: TimeOfDay) -> (current: bool)
        ensures
            current == (self@.blocks.len() <= 1 || time.key() <= self.boundary().key()),
    {
        self.blocks.len() <= 1 || !self.next_tick.is_before(&time)
    }

    /// The state, unless the current time is past the active boundary and
    /// the ring has more blocks than one. Takes no step. On the wall clock
    /// the reading can panic, as `TimeSource::now` says.
    pub fn try_get(&self) -> (state: Option<&T>)
        ensures
            state matches Some(data) ==> *data == self@.payload,
            self@.blocks.len() <= 1 ==> state is Some,
            exists|now: TimeOfDay|
                #![trigger self.source().may_read(now)]
                self.source().may_read(now) && (state is Some <==> self@.blocks.len() <= 1
                    || now.key() <= self.boundary().key()),
    {
        let now = self.source.now();
        assert(self.source().may_read(now));
        if self.is_current_at(now) {
            Some(&self.data)
        } else {
            None
        }
    }

    /// The state without catching up.
    #[inline]
    pub fn data(&self) -> (data: &T)
        ensures
            *data == self@.payload,
    {
        &self.data
    }

    /// The state without catching up, to be changed in place.
    #[inline]
    pub fn data_mut(&mut self) -> (data: &mut T)
        ensures
            *data == old(self)@.payload,
            final(self)@.payload == *final(data),
            final(self)@.blocks == old(self)@.blocks,
            final(self).boundary() == old(self).boundary(),
            final(self).source() == old(self).source(),
    {
        &mut self.data
    }

    /// The state after catching up with the current time, to be changed in
    /// place. On the wall clock the reading can panic, as `TimeSource::now`
    /// says.
    pub fn get_mut(&mut self) -> (data: &mut T)
        requires
            old(self).wf(),
        ensures
            final(self).wf(),
            exists|now: TimeOfDay, trace: Seq<&mut T>, states: Seq<T>|
                #![trigger walked(old(self)@.blocks, Self::hops(old(self)@, now), trace, states)]
                old(self).source().may_read(now) && Self::catches_up(
                    old(self)@,
                    now,
                    (DayView {
                        blocks: final(self)@.blocks,
                        payload: *data,
                        boundary: final(self).boundary(),
                    }),
                ) && walked(old(self)@.blocks, Self::hops(old(self)@, now), trace, states)
                    && states[0] == old(self)@.payload && states.last()
                    == *data && (forall|i: int|
                    0 <= i < trace.len() ==> mut_ref_future(#[trigger] trace[i]) == states[i + 1]),
            old(self)@.blocks.len() == 1 ==> final(self)@.blocks == old(self)@.blocks && *data
                == old(self)@.payload && final(self).boundary() == old(self).boundary(),
            final(self)@.payload == *final(data),
            final(self)@.blocks.len() == old(self)@.blocks.len(),
            final(self).source() == old(self).source(),
    {
        self.forward_to_now();
        let ghost caught = self@;
        proof {
            let (now, trace, states) = choose|now: TimeOfDay, trace: Seq<&mut T>, states: Seq<T>|
                #![trigger walked(old(self)@.blocks, Self::hops(old(self)@, now), trace, states)]
                old(self).source().may_read(now) && Self::catches_up(old(self)@, now, caught)
                    && walked(old(self)@.blocks, Self::hops(old(self)@, now), trace, states)
                    && states[0] == old(self)@.payload && states.last()
                    == caught.payload && (forall|i: int|
                    0 <= i < trace.len() ==> mut_ref_future(#[trigger] trace[i]) == states[i + 1]);
            assert(walked(old(self)@.blocks, Self::hops(old(self)@, now), trace, states));
        }
        self.data_mut()
    }

    /// Like `try_get`, with the state to be changed in place. On the wall
    /// clock the reading can panic, as `TimeSource::now` says.
    pub fn try_get_mut(&mut self) -> (state: Option<&mut T>)
        ensures
            final(self)@.blocks == old(self)@.blocks,
            final(self).boundary() == old(self).boundary(),
            final(self).source() == old(self).source(),
            match state {
                Some(data) => *data == old(self)@.payload && final(self)@.payload == *final(data),
                None => final(self)@.payload == old(self)@.payload,
            },
            old(self)@.blocks.len() <= 1 ==> state is Some,
            exists|now: TimeOfDay|
                #![trigger old(self).source().may_read(now)]
                old(self).source().may_read(now) && (state is Some <==> old(self)@.blocks.len()
                    <= 1 || now.key() <= old(self).boundary().key()),
    {
        let now = self.source.now();
        assert(self.source().may_read(now));
        if self.is_current_at(now) {
            Some(&mut self.data)
        } else {
            None
        }
    }

    /// The state after catching up with the current time. On the wall clock
    /// the reading can panic, as `TimeSource::now` says.
    pub fn get(&mut self) -> (data: &T)
        requires
            old(self).wf(),
        ensures
            final(self).wf(),
            *data == final(self)@.payload,
            exists|now: TimeOfDay, trace: Seq<&mut T>, states: Seq<T>|
                #![trigger walked(old(self)@.blocks, Self::hops(old(self)@, now), trace, states)]
                old(self).source().may_read(now) && Self::catches_up(
                    old(self)@,
                    now,
                    final(self)@,
                ) && walked(old(self)@.blocks, Self::hops(old(self)@, now), trace, states)
                    && states[0] == old(self)@.payload && states.last()
                    == final(self)@.payload && (forall|i: int|
                    0 <= i < trace.len() ==> mut_ref_future(#[trigger] trace[i]) == states[i + 1]),
            old(self)@.blocks.len() == 1 ==> final(self)@ == old(self)@,
            final(self)@.blocks.len() == old(self)@.blocks.len(),
            final(self).source() == old(self).source(),
    {
        self.forward_to_now();
        self.data()
    }

    /// The active boundary.
    pub fn active_boundary(&self) -> (start: TimeOfDay)
        ensures
            start == self.boundary(),
    {
        self.next_tick
    }

    /// The starts of the blocks, in the order of the ring.
    pub fn starts(&self) -> (starts: Vec<TimeOfDay>)
        ensures
            starts@.len() == self@.blocks.len(),
            forall|i: int| 0 <= i < starts@.len() ==> starts@[i] == self@.blocks[i].start,
    {
        let mut starts = Vec::new();
        let mut i: usize = 0;
        while i < self.blocks.len()
            invariant
                i <= self.blocks@.len(),
                starts@.len() == i,
                forall|j: int| 0 <= j < i ==> starts@[j] == self.blocks@[j].start,
            decreases self.blocks@.len() - i,
        {
            starts.push(self.blocks[i].start);
            i += 1;
        }
        starts
    }

    /// The number of blocks in the ring.
    pub fn len(&self) -> (n: usize)
        ensures
            n == self@.blocks.len(),
    {
        self.blocks.len()
    }

    /// The source of time the schedule reads.
    pub fn time_source(&self) -> (source: TimeSource)
        ensures
            source == self.source(),
    {
        self.source
    }

    /// Makes the schedule read the time from `source` from now on. The
    /// active boundary stays.
    pub fn set_time_source(&mut self, source: TimeSource)
        ensures
            final(self).source() == source,
            final(self)@ == old(self)@,
    {
        self.source = source;
    }
}

} // verus!
