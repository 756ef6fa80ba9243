//! What happens to a payload when it leaves the pool and when it comes back.

use core::ops::{Deref, DerefMut};
use vstd::prelude::*;

verus! {

/// Resetting a payload brings it back to a state in which it can be used again. The pool calls
/// the first hook on a payload that it hands out and the second on one that is handed back.
pub trait Reset: Sized {
    /// `post` is a state in which the checkout hook may leave a payload that was in state
    /// `pre`.
    spec fn checkout_resets(pre: Self, post: Self) -> bool;

    /// `post` is a state in which the checkin hook may leave a payload that was in state
    /// `pre`.
    spec fn checkin_resets(pre: Self, post: Self) -> bool;

    /// Called on a payload just before it is handed out.
    fn reset_on_checkout(&mut self)
        ensures
            Self::checkout_resets(*old(self), *final(self)),
    ;

    /// Called on a payload just before it goes back on the free list.
    fn reset_on_checkin(&mut self)
        ensures
            Self::checkin_resets(*old(self), *final(self)),
    ;
}

/// `v` is a clone of a default value of its type.
pub open spec fn is_fresh<T: Default + Clone>(v: T) -> bool {
    exists|d: T| T::default.ensures((), d) && cloned(d, v)
}

/// `Clone::clone_from` of the standard library, which makes `target` a clone of `source` and
/// may keep what `target` has allocated. The contract says that `target` ends as a value that
/// `source.clone()` could have returned, as the documentation of `clone_from` has it.
#[verifier::external_body]
fn clone_from<T: Clone>(target: &mut T, source: &T)
    ensures
        cloned(*source, *final(target)),
{
    target.clone_from(source)
}

/// Makes `target` a clone of the default value of its type.
fn refresh<T: Default + Clone>(target: &mut T)
    ensures
        is_fresh(*final(target)),
{
    let fresh = T::default();
    clone_from(target, &fresh);
}

/// A payload that is never reset: whoever checks it out finds it as it was left.
#[derive(Debug)]
pub struct Dirty<T>(pub T);

impl<T> Reset for Dirty<T> {
    open spec fn checkout_resets(pre: Self, post: Self) -> bool {
        post == pre
    }

    open spec fn checkin_resets(pre: Self, post: Self) -> bool {
        post == pre
    }

    fn reset_on_checkout(&mut self) {
    }

    fn reset_on_checkin(&mut self) {
    }
}

impl<T> Deref for Dirty<T> {
    type Target = T;

    fn deref(&self) -> (r: &T)
        ensures
            *r == self.0,
    {
        &self.0
    }
}

impl<T> DerefMut for Dirty<T> {
    fn deref_mut(&mut self) -> (r: &mut T)
        ensures
            *r == old(self).0,
            final(self).0 == *final(r),
    {
        &mut self.0
    }
}

/// A payload that is reset as soon as it is handed back, so that what it held is released at
/// once and not kept while the entry is idle.
pub struct ResetOnCheckin<T: Default + Clone>(pub T);

impl<T: Default + Clone> Reset for ResetOnCheckin<T> {
    open spec fn checkout_resets(pre: Self, post: Self) -> bool {
        post == pre
    }

    open spec fn checkin_resets(pre: Self, post: Self) -> bool {
        is_fresh(post.0)
    }

    fn reset_on_checkout(&mut self) {
    }

    fn reset_on_checkin(&mut self) {
        refresh(&mut self.0);
    }
}

impl<T: Default + Clone> Deref for ResetOnCheckin<T> {
    type Target = T;

    fn deref(&self) -> (r: &T)
        ensures
            *r == self.0,
    {
        &self.0
    }
}

impl<T: Default + Clone> DerefMut for ResetOnCheckin<T> {
    fn deref_mut(&mut self) -> (r: &mut T)
        ensures
            *r == old(self).0,
            final(self).0 == *final(r),
    {
        &mut self.0
    }
}

/// Payloads that have a default value and can be cloned are reset when they are handed out,
/// unless their type says otherwise.
impl<T: Default + Clone> Reset for T {
    open spec fn checkout_resets(pre: Self, post: Self) -> bool {
        is_fresh(post)
    }

    open spec fn checkin_resets(pre: Self, post: Self) -> bool {
        post == pre
    }

    fn reset_on_checkout(&mut self) {
        refresh(self);
    }

    fn reset_on_checkin(&mut self) {
    }
}

} // verus!
