//! A block of the day and its hooks.

use crate::hook::{total, FnHook, Identity, Transition};
use crate::time::TimeOfDay;
use vstd::prelude::*;

verus! {

/// A block of the day: the time at which it starts, and what happens to a
/// state of type `T` when the block is entered and when it is left.
#[verifier::reject_recursive_types(T)]
pub struct TimeLinkedListNode<T> {
    pub start: TimeOfDay,
    pub enter: Box<dyn Transition<T>>,
    pub leave: Box<dyn Transition<T>>,
}

impl<T: 'static> TimeLinkedListNode<T> {
    /// The block that starts at `time` and has no hooks.
    pub open spec fn plain(time: TimeOfDay) -> Self {
        TimeLinkedListNode { start: time, enter: Box::new(Identity), leave: Box::new(Identity) }
    }

    /// A block that starts at `time` and changes nothing when it is entered
    /// or left.
    pub fn new(time: TimeOfDay) -> (node: Self)
        ensures
            node == Self::plain(time),
            node.start == time,
            forall|before: T, after: T| node.enter.relates(before, after) <==> after == before,
            forall|before: T, after: T| node.leave.relates(before, after) <==> after == before,
    {
        TimeLinkedListNode { start: time, enter: Box::new(Identity), leave: Box::new(Identity) }
    }

    /// Replaces what happens when the block is entered: the new hook admits
    /// what `mapper` does and nothing else. `mapper` is not called.
    pub fn on_enter(&mut self, mapper: impl Fn(&mut T) + 'static)
        requires
            total::<T, _>(mapper),
        ensures
            final(self).start == old(self).start,
            final(self).leave == old(self).leave,
            forall|before: T, after: T| final(self).enter.relates(before, after),
            forall|during: &mut T| #[trigger]
                final(self).enter.admits(during) <==> call_ensures(mapper, (during,), ()),
    {
        self.enter = Box::new(FnHook::new(mapper));
    }

    /// Replaces what happens when the block is left: the new hook admits
    /// what `mapper` does and nothing else. `mapper` is not called.
    pub fn on_leave(&mut self, mapper: impl Fn(&mut T) + 'static)
        requires
            total::<T, _>(mapper),
        ensures
            final(self).start == old(self).start,
            final(self).enter == old(self).enter,
            forall|before: T, after: T| final(self).leave.relates(before, after),
            forall|during: &mut T| #[trigger]
                final(self).leave.admits(during) <==> call_ensures(mapper, (during,), ()),
    {
        self.leave = Box::new(FnHook::new(mapper));
    }
}

impl<T: 'static> From<TimeOfDay> for TimeLinkedListNode<T> {
    fn from(value: TimeOfDay) -> (node: Self) {
        TimeLinkedListNode::new(value)
    }
}

impl<T: 'static> vstd::std_specs::convert::FromSpecImpl<TimeOfDay> for TimeLinkedListNode<T> {
    open spec fn obeys_from_spec() -> bool {
        true
    }

    open spec fn from_spec(value: TimeOfDay) -> Self {
        Self::plain(value)
    }
}

} // verus!
