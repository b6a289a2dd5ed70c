use vstd::prelude::*;
use crate::report::CCXStopReason;
use std::time::{Duration, Instant};

verus! {

#[verifier::external_type_specification]
#[verifier::external_body]
pub struct ExInstant(Instant);

/// The time since `start`: a call of `Instant::elapsed`. It depends on the clock, so
/// nothing is stated of it.
#[verifier::external_body]
fn elapsed(start: &Instant) -> (r: Duration) {
    start.elapsed()
}

/// The whole length of `d` in nanoseconds: a call of `Duration::as_nanos`. The type is
/// opaque here, so nothing is stated of the number; it fits a `u128` for every
/// `Duration`, and two durations compare as their nanosecond counts do.
#[verifier::external_body]
fn duration_nanos(d: &Duration) -> (r: u128) {
    d.as_nanos()
}

/// What one step of the runner recorded.
pub struct Iteration<IterData> {
    /// The user provided annotation for this iteration
    pub data: IterData,
    pub num_nodes: usize,
    pub finish_time: Option<Instant>,
}

/// The limits under which a runner works.
pub struct RunnerLimits {
    pub iter_limit: usize,
    pub node_limit: usize,
    pub start_time: Option<Instant>,
    /// In nanoseconds.
    pub time_limit: u128,
}

/// Which limit, if any, a state with the given counts has passed; the iteration limit
/// is looked at first, then the node limit, then the time limit.
pub open spec fn limits_verdict<T>(
    iter_limit: usize,
    node_limit: usize,
    time_limit: u128,
    iteration: usize,
    nodes: usize,
    elapsed: u128,
) -> Result<(), CCXStopReason<T>> {
    if iteration > iter_limit {
        Err(CCXStopReason::IterationLimit)
    } else if nodes > node_limit {
        Err(CCXStopReason::NodeLimit)
    } else if elapsed > time_limit {
        Err(CCXStopReason::TimeLimit)
    } else {
        Ok(())
    }
}

impl RunnerLimits {
    /// The limits a fresh runner starts with: 30 iterations, 10 000 nodes, one minute,
    /// and no start time yet.
    pub fn new() -> (r: RunnerLimits)
        ensures
            r.iter_limit == 30,
            r.node_limit == 10_000,
            r.time_limit == 60_000_000_000,
            r.start_time is None,
    {
        RunnerLimits {
            iter_limit: 30,
            node_limit: 10_000,
            start_time: None,
            time_limit: 60_000_000_000,
        }
    }

    pub fn with_node_limit(self, node_limit: usize) -> (r: RunnerLimits)
        ensures
            r.node_limit == node_limit,
            r.iter_limit == self.iter_limit,
            r.time_limit == self.time_limit,
            r.start_time == self.start_time,
    {
        RunnerLimits { node_limit, ..self }
    }

    pub fn with_iter_limit(self, iter_limit: usize) -> (r: RunnerLimits)
        ensures
            r.iter_limit == iter_limit,
            r.node_limit == self.node_limit,
            r.time_limit == self.time_limit,
            r.start_time == self.start_time,
    {
        RunnerLimits { iter_limit, ..self }
    }

    /// `time_limit` in nanoseconds.
    pub fn with_time_limit(self, time_limit: u128) -> (r: RunnerLimits)
        ensures
            r.time_limit == time_limit,
            r.iter_limit == self.iter_limit,
            r.node_limit == self.node_limit,
            r.start_time == self.start_time,
    {
        RunnerLimits { time_limit, ..self }
    }

    /// Which limit a state with the given counts has passed, `elapsed` nanoseconds
    /// after the start.
    pub fn check_limits_at<T>(&self, iteration: usize, nodes: usize, elapsed: u128) -> (r: Result<
        (),
        CCXStopReason<T>,
    >)
        ensures
            r == limits_verdict::<T>(
                self.iter_limit,
                self.node_limit,
                self.time_limit,
                iteration,
                nodes,
                elapsed,
            ),
    {
        if iteration > self.iter_limit {
            Err(CCXStopReason::IterationLimit)
        } else if nodes > self.node_limit {
            Err(CCXStopReason::NodeLimit)
        } else if elapsed > self.time_limit {
            Err(CCXStopReason::TimeLimit)
        } else {
            Ok(())
        }
    }

    /// Which limit a state with the given counts has passed now. Whatever the clock
    /// reads, the iteration limit and then the node limit are decided as in
    /// `limits_verdict`.
    pub fn check_limits<T>(&self, iteration: usize, nodes: usize) -> (r: Result<
        (),
        CCXStopReason<T>,
    >)
        requires
            self.start_time is Some,
        ensures
            exists|elapsed: u128|
                r == limits_verdict::<T>(
                    self.iter_limit,
                    self.node_limit,
                    self.time_limit,
                    iteration,
                    nodes,
                    elapsed,
                ),
    {
        let start = match &self.start_time {
            Some(s) => s,
            None => {
                return Ok(());
            },
        };
        let since = elapsed(start);
        let nanos = duration_nanos(&since);
        self.check_limits_at(iteration, nodes, nanos)
    }
}

/// The outcome of one runner step: a failing hook stops the run first, then a passed
/// limit, then an empty worklist of unprocessed classes.
pub open spec fn step_verdict<T>(
    hooks: Result<(), T>,
    limits: Result<(), CCXStopReason<T>>,
    us_empty: bool,
) -> Option<CCXStopReason<T>> {
    match hooks {
        Err(e) => Some(CCXStopReason::Other(e)),
        Ok(_) => match limits {
            Err(reason) => Some(reason),
            Ok(_) => if us_empty {
                Some(CCXStopReason::EmptyUs)
            } else {
                None
            },
        },
    }
}

/// Decides whether the runner stops after a step, and why.
pub fn step_outcome<T>(hooks: Result<(), T>, limits: Result<(), CCXStopReason<T>>, us_empty: bool) -> (r:
    Option<CCXStopReason<T>>)
    ensures
        r == step_verdict(hooks, limits, us_empty),
{
    match hooks {
        Err(e) => Some(CCXStopReason::Other(e)),
        Ok(_) => match limits {
            Err(reason) => Some(reason),
            Ok(_) => if us_empty {
                Some(CCXStopReason::EmptyUs)
            } else {
                None
            },
        },
    }
}

/// The stop rule of the plain saturation loop: a failing hook first, then an empty
/// worklist, then the iteration limit, then the time limit (in seconds).
pub open spec fn ccx_verdict(
    hook: Result<(), String>,
    us_empty: bool,
    iterations: usize,
    iter_limit: usize,
    elapsed_secs: u64,
    time_limit: usize,
) -> Option<CCXStopReason<String>> {
    match hook {
        Err(msg) => Some(CCXStopReason::Other(msg)),
        Ok(_) => if us_empty {
            Some(CCXStopReason::EmptyUs)
        } else if iterations >= iter_limit {
            Some(CCXStopReason::IterationLimit)
        } else if elapsed_secs >= time_limit {
            Some(CCXStopReason::TimeLimit)
        } else {
            None
        },
    }
}

/// Decides whether the saturation loop stops after a step, and why.
pub fn ccx_stop(
    hook: Result<(), String>,
    us_empty: bool,
    iterations: usize,
    iter_limit: usize,
    elapsed_secs: u64,
    time_limit: usize,
) -> (r: Option<CCXStopReason<String>>)
    ensures
        r == ccx_verdict(hook, us_empty, iterations, iter_limit, elapsed_secs, time_limit),
{
    match hook {
        Err(msg) => Some(CCXStopReason::Other(msg)),
        Ok(_) => if us_empty {
            Some(CCXStopReason::EmptyUs)
        } else if iterations >= iter_limit {
            Some(CCXStopReason::IterationLimit)
        } else if (elapsed_secs as u128) >= (time_limit as u128) {
            Some(CCXStopReason::TimeLimit)
        } else {
            None
        },
    }
}

} // verus!
