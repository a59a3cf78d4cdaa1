//! Stack frame size estimation and per-thread call depth tracking.

use vstd::prelude::*;

verus! {

/// Stack consumed between the stack pointer read at entry and the one read
/// now. Stacks grow downward, so the entry value is normally the larger one;
/// when it is not, the result is zero.
pub fn frame_size(sp_at_entry: usize, sp_now: usize) -> (r: u64)
    ensures
        sp_at_entry >= sp_now ==> r == sp_at_entry - sp_now,
        sp_at_entry < sp_now ==> r == 0,
{
    let d: usize = sp_at_entry.saturating_sub(sp_now);
    d as u64
}

/// The current call depth of a thread, given that thread's depth counter.
pub fn current_call_depth(depth: &u32) -> (r: u32)
    ensures
        r == *depth,
{
    *depth
}

/// The depth one level deeper.
pub open spec fn pushed(d: u32) -> int {
    d + 1
}

/// The depth one level up, never below zero.
pub open spec fn popped(d: u32) -> u32 {
    if d > 0 {
        (d - 1) as u32
    } else {
        0
    }
}

/// Enters one level deeper: increments the counter and returns the new depth.
pub fn push_depth(depth: &mut u32) -> (r: u32)
    requires
        *old(depth) < u32::MAX,
    ensures
        *final(depth) == pushed(*old(depth)),
        r == *final(depth),
{
    *depth = *depth + 1;
    *depth
}

/// Leaves one level: decrements the counter, never below zero.
pub fn pop_depth(depth: &mut u32)
    ensures
        *final(depth) == popped(*old(depth)),
{
    if *depth > 0 {
        *depth = *depth - 1;
    }
}

/// Leaving a level undoes entering it: a `pop_depth` after a `push_depth`
/// gives the counter back its old value.
pub proof fn lemma_push_then_pop_restores(d: u32)
    requires
        d < u32::MAX,
    ensures
        popped(pushed(d) as u32) == d,
{
}

} // verus!
