use vstd::prelude::*;

verus! {

/// The `OrqestraJobTrait` trait lets any type that implements it be a job:
/// a unit of work that can be scheduled after other jobs and read their
/// results.
pub trait OrqestraJobTrait<O> {
    /// The work the worker performs for this job; `job_dep` holds the values
    /// of the jobs it was scheduled after, in the order of the `after` calls.
    fn execute(&self, job_dep: JobDep<'_, O>) -> O;
}

/// The stored state of a job.
///
/// `next_jobs` lists the jobs registered (through [`Job::after`]) to run
/// after this one; `exec_counter` counts the dependencies of this job that
/// have not finished yet. When a job finishes, the counter of each job in its
/// `next_jobs` goes down by one, and a job whose counter reaches zero becomes
/// runnable.
pub struct InnerJob<J, O> {
    /// How many dependencies of this job have not finished yet.
    pub exec_counter: usize,
    /// The user value whose `execute` is run.
    pub f: J,
    /// The value produced by the last execution, if any.
    pub return_value: Option<O>,
    /// Set once `return_value` holds a finished value.
    pub ready: bool,
    /// Store positions of the jobs to process once this job has run.
    pub next_jobs: Vec<usize>,
    /// Store positions of the jobs this job depends on, in `after` order.
    pub dep: Vec<usize>,
}

impl<J, O> InnerJob<J, O> {
    /// A job with no dependencies, no successors and no value yet.
    pub(crate) fn new(f: J) -> (r: InnerJob<J, O>)
        ensures
            r.exec_counter == 0,
            r.f == f,
            r.return_value is None,
            !r.ready,
            r.next_jobs@ == Seq::<usize>::empty(),
            r.dep@ == Seq::<usize>::empty(),
    {
        InnerJob {
            exec_counter: 0,
            f,
            return_value: None,
            ready: false,
            next_jobs: Vec::with_capacity(4),
            dep: Vec::with_capacity(4),
        }
    }

}

/// A handle to a job registered in an
/// [`ExecutableStore`](crate::ExecutableStore): its position there.
#[derive(Clone, Copy, Debug, PartialEq, Eq, Structural)]
pub struct Job {
    pub inner: usize,
}

/// What [`JobDep::get`] reports when it cannot give a value.
#[derive(Clone, Copy, Debug, PartialEq, Eq, Structural)]
pub enum JobDepErr {
    /// No dependency at that index.
    IndexOutOfBounds,
    /// The dependency has not produced its value yet.
    ValueIsnNotReady,
}

/// The values of the jobs a job depends on, in the order of the `after`
/// calls that registered them.
pub struct JobDep<'a, O> {
    pub(crate) vec: Vec<(&'a Option<O>, bool)>,
}

impl<'a, O> JobDep<'a, O> {
    /// Each dependency's stored value and whether it is finished.
    pub closed spec fn entries(&self) -> Seq<(Option<O>, bool)> {
        self.vec@.map_values(|e: (&'a Option<O>, bool)| (*e.0, e.1))
    }

    /// Wraps the per-dependency references.
    pub(crate) fn from_vec(vec: Vec<(&'a Option<O>, bool)>) -> (r: JobDep<'a, O>)
        ensures
            r.entries() == vec@.map_values(|e: (&'a Option<O>, bool)| (*e.0, e.1)),
    {
        JobDep { vec }
    }

    /// The number of dependencies.
    pub fn len(&self) -> (r: usize)
        ensures
            r == self.entries().len(),
    {
        self.vec.len()
    }

    /// The value of the dependency registered by the `idx`-th `after` call.
    pub fn get(&self, idx: usize) -> (r: Result<&Option<O>, JobDepErr>)
        ensures
            idx >= self.entries().len() ==> r == Err::<&Option<O>, JobDepErr>(JobDepErr::IndexOutOfBounds),
            idx < self.entries().len() && !self.entries()[idx as int].1
                ==> r == Err::<&Option<O>, JobDepErr>(JobDepErr::ValueIsnNotReady),
            idx < self.entries().len() && self.entries()[idx as int].1
                ==> (r matches Ok(v) && *v == self.entries()[idx as int].0),
    {
        if idx >= self.vec.len() {
            return Err(JobDepErr::IndexOutOfBounds);
        }
        let entry = self.vec[idx];
        if !entry.1 {
            Err(JobDepErr::ValueIsnNotReady)
        } else {
            Ok(entry.0)
        }
    }
}

} // verus!
