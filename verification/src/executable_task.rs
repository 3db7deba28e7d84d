use vstd::prelude::*;
use crate::job::Job;

verus! {

/// A handle to something the workers can run: a spawned task or a scheduled
/// job, each by its position in the
/// [`ExecutableStore`](crate::ExecutableStore), or a placeholder that is
/// never run.
#[derive(Clone, Copy, Debug, PartialEq, Eq, Structural)]
pub enum ExecutableTask {
    Task(usize),
    Job(usize),
    Dummy,
}

impl ExecutableTask {
    /// The handle that runs `job`.
    pub fn new_job(job: Job) -> (r: ExecutableTask)
        ensures
            r == ExecutableTask::Job(job.inner),
    {
        ExecutableTask::Job(job.inner)
    }

    /// The handle that runs the job stored at position `inner`.
    pub fn new_job_from_arc_inner(inner: usize) -> (r: ExecutableTask)
        ensures
            r == ExecutableTask::Job(inner),
    {
        ExecutableTask::Job(inner)
    }

    /// The placeholder handle.
    pub fn new_dummy() -> (r: ExecutableTask)
        ensures
            r == ExecutableTask::Dummy,
    {
        ExecutableTask::Dummy
    }
}

} // verus!
