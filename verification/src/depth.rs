use vstd::prelude::*;

verus! {

/// The recursion depth allowed unless it is set otherwise.
pub const DEFAULT_MAX_RECURSION_DEPTH: usize = 4000;

/// The recursion budget of the unification and instantiation passes: how deep they may
/// nest, and how deep they are now.
pub struct RecursionDepth {
    pub max: usize,
    pub cur: usize,
}

impl RecursionDepth {
    pub fn new() -> (r: RecursionDepth)
        ensures
            r.max == DEFAULT_MAX_RECURSION_DEPTH,
            r.cur == 0,
    {
        RecursionDepth { max: DEFAULT_MAX_RECURSION_DEPTH, cur: 0 }
    }
}

/// Sets how deep the recursive passes may nest.
pub fn set_max_recursion_depth(state: &mut RecursionDepth, depth: usize)
    ensures
        final(state).max == depth,
        final(state).cur == old(state).cur,
{
    state.max = depth;
}

/// Proof that one more level of recursion was entered.
pub struct DepthGuard;

impl DepthGuard {
    /// Enters one more level, unless the current depth has reached the maximum.
    pub fn enter(state: &mut RecursionDepth) -> (r: Option<DepthGuard>)
        ensures
            r is Some <==> old(state).cur < old(state).max,
            final(state).max == old(state).max,
            final(state).cur == (if old(state).cur < old(state).max {
                old(state).cur + 1
            } else {
                old(state).cur as int
            }),
    {
        if state.cur >= state.max {
            return None;
        }
        state.cur = state.cur + 1;
        Some(DepthGuard)
    }

    /// Leaves the level that this guard stands for.
    pub fn exit(self, state: &mut RecursionDepth)
        ensures
            final(state).max == old(state).max,
            final(state).cur == (if old(state).cur == 0 {
                0
            } else {
                old(state).cur - 1
            }),
    {
        state.cur = state.cur.saturating_sub(1);
    }
}

/// Entering a level and leaving it again gives back the depth one started from.
pub proof fn lemma_enter_exit_restores(start: RecursionDepth, entered: RecursionDepth, left: RecursionDepth)
    requires
        start.cur < start.max,
        entered.max == start.max,
        entered.cur == start.cur + 1,
        left.max == entered.max,
        left.cur == (if entered.cur == 0 { 0 } else { entered.cur - 1 }),
    ensures
        left.cur == start.cur,
        left.max == start.max,
{
}

} // verus!
