//! What runs on the state when a block is entered or left.

use vstd::prelude::*;

verus! {

/// A change made to a state of type `T` when a boundary is crossed. What a
/// transition does is said in two ways, and `apply` keeps both: `relates`
/// speaks of the state before and the state after, `admits` of the mutable
/// reference that the transition works through.
pub trait Transition<T> {
    /// Whether applying the transition to `before` can leave `after`. Where
    /// a transition does not say, every outcome counts as possible.
    open spec fn relates(&self, before: T, after: T) -> bool {
        true
    }

    /// Whether the transition can be handed `during` and leave it as it is
    /// left. Where a transition does not say, it can.
    open spec fn admits(&self, during: &mut T) -> bool {
        true
    }

    /// Applies the transition to `state`.
    fn apply(&self, state: &mut T)
        ensures
            self.relates(*old(state), *final(state)),
            exists|during: &mut T|
                mut_ref_current(during) == *old(state) && mut_ref_future(during) == *final(state)
                    && #[trigger] self.admits(during),
    ;
}

/// The transition that changes nothing.
pub struct Identity;

impl<T> Transition<T> for Identity {
    open spec fn relates(&self, before: T, after: T) -> bool {
        after == before
    }

    fn apply(&self, state: &mut T) {
        assert(self.admits(old(state)));
    }
}

/// Leaves the state as it is.
pub fn identity<T>(state: &mut T)
    ensures
        *final(state) == *old(state),
{
}

/// Whether `f` can be called on every state.
pub open spec fn total<T, F: Fn(&mut T)>(f: F) -> bool {
    forall|state: &mut T| call_requires(f, (state,))
}

/// A closure in the role of a transition: it admits what the closure's
/// own postcondition admits.
#[verifier::reject_recursive_types(T)]
pub struct FnHook<T, F: Fn(&mut T)> {
    run: F,
    state: core::marker::PhantomData<T>,
}

impl<T, F: Fn(&mut T)> FnHook<T, F> {
    #[verifier::type_invariant]
    spec fn callable(self) -> bool {
        total::<T, F>(self.run)
    }

    /// The closure that the hook runs.
    pub closed spec fn func(self) -> F {
        self.run
    }

    /// Wraps a closure that accepts every state.
    pub fn new(run: F) -> (hook: Self)
        requires
            total::<T, F>(run),
        ensures
            hook.func() == run,
    {
        FnHook { run, state: core::marker::PhantomData }
    }
}

impl<T, F: Fn(&mut T)> Transition<T> for FnHook<T, F> {
    open spec fn admits(&self, during: &mut T) -> bool {
        call_ensures(self.func(), (during,), ())
    }

    /// Runs the closure on `state`.
    fn apply(&self, state: &mut T) {
        proof {
            use_type_invariant(self);
        }
        (self.run)(state);
        proof {
            let during = choose|during: &mut T|
                mut_ref_current(during) == *old(state) && mut_ref_future(during) == *final(state)
                    && call_ensures(self.run, (during,), ());
            assert(self.admits(during));
        }
    }
}

} // verus!
