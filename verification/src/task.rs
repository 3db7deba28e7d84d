use vstd::prelude::*;

verus! {

/// The `OrqestraTaskTrait` trait lets any type that implements it be a task
/// that the scheduler can execute.
pub trait OrqestraTaskTrait<O> {
    /// Runs the task and returns its value.
    fn execute(&self) -> O;
}

/// A task spawned on its own, without any scheduling relation to others.
pub struct WaitingTask<T, O> {
    /// The user value whose `execute` is run.
    pub f: T,
    /// The value produced by the last execution, if any.
    pub return_value: Option<O>,
    /// Set once `return_value` holds a finished value.
    pub ready: bool,
}

impl<T, O> WaitingTask<T, O> {
    /// Wraps a task; it holds no value yet.
    pub fn new(f: T) -> (r: WaitingTask<T, O>)
        ensures
            r.f == f,
            r.return_value is None,
            !r.ready,
    {
        WaitingTask { f, return_value: None, ready: false }
    }
}

} // verus!
