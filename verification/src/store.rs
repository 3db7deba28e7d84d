use vstd::prelude::*;
use std::collections::VecDeque;
use crate::executable_task::ExecutableTask;
use crate::graph::{
    in_degree, occurrences, released, lemma_in_degree_absent, lemma_in_degree_push,
    lemma_in_degree_update, lemma_occurrences_empty, lemma_occurrences_push,
    lemma_occurrences_take_step, lemma_occurrences_take_le, lemma_occurrences_le_in_degree,
    lemma_released_exactly_last_dependency,
};
use crate::job::{InnerJob, Job, JobDep, OrqestraJobTrait};
use crate::task::{OrqestraTaskTrait, WaitingTask};

verus! {

/// Owns the tasks and jobs that [`ExecutableTask`](crate::ExecutableTask)
/// handles refer to, together with the dependency graph of the jobs.
pub struct ExecutableStore<T, J, O> {
    tasks: Vec<WaitingTask<T, O>>,
    jobs: Vec<InnerJob<J, O>>,
}

impl<T, J, O> ExecutableStore<T, J, O> {
    /// Each registered task, with its value once it ran.
    pub closed spec fn tasks(&self) -> Seq<WaitingTask<T, O>> {
        self.tasks@
    }

    pub closed spec fn jobs(&self) -> Seq<InnerJob<J, O>> {
        self.jobs@
    }

    /// The successor list of every job.
    pub open spec fn next_lists(&self) -> Seq<Seq<usize>> {
        self.jobs().map_values(|jb: InnerJob<J, O>| jb.next_jobs@)
    }

    /// The pending-dependency counter of every job.
    pub open spec fn counters(&self) -> Seq<nat> {
        self.jobs().map_values(|jb: InnerJob<J, O>| jb.exec_counter as nat)
    }

    /// Every edge points at a registered job, and every job's counter is the
    /// number of edges that still point at it.
    pub open spec fn wf(&self) -> bool {
        &&& forall|p: int, k: int|
            0 <= p < self.jobs().len() && 0 <= k < self.jobs()[p].next_jobs@.len()
                ==> #[trigger] self.jobs()[p].next_jobs@[k] < self.jobs().len()
        &&& forall|p: int, k: int|
            0 <= p < self.jobs().len() && 0 <= k < self.jobs()[p].dep@.len()
                ==> #[trigger] self.jobs()[p].dep@[k] < self.jobs().len()
        &&& forall|j: int|
            0 <= j < self.jobs().len() ==> #[trigger] self.jobs()[j].exec_counter == in_degree(
                self.next_lists(),
                j as usize,
            )
    }

    /// Every finished job holds its value, and each dependency of each job
    /// has either finished or still lists that job among its successors.
    pub open spec fn deps_settled(&self) -> bool {
        &&& forall|x: int| 0 <= x < self.jobs().len() && #[trigger] self.jobs()[x].ready
            ==> self.jobs()[x].return_value is Some
        &&& forall|j: int, k: int| 0 <= j < self.jobs().len() && 0 <= k < self.jobs()[j].dep@.len() ==> {
            let d = #[trigger] self.jobs()[j].dep@[k];
            self.jobs()[d as int].ready || occurrences(self.jobs()[d as int].next_jobs@, j as usize) > 0
        }
    }

    /// A job runs only after its dependencies: once no dependency of job
    /// `j` is pending (its counter is zero), every job it was scheduled after
    /// has finished and holds its value, so every dependency value handed to
    /// `j` is finished and present.
    pub proof fn lemma_dependencies_done_when_released(&self, j: int)
        requires
            self.wf(),
            self.deps_settled(),
            0 <= j < self.jobs().len(),
            self.counters()[j] == 0,
        ensures
            forall|k: int| 0 <= k < self.jobs()[j].dep@.len() ==> {
                let d = #[trigger] self.jobs()[j].dep@[k] as int;
                &&& self.jobs()[d].ready
                &&& self.jobs()[d].return_value is Some
            },
            forall|k: int| 0 <= k < self.dep_entries(j).len() ==> {
                &&& (#[trigger] self.dep_entries(j)[k]).1
                &&& self.dep_entries(j)[k].0 is Some
            },
    {
        assert forall|k: int| 0 <= k < self.jobs()[j].dep@.len() implies {
            let d = #[trigger] self.jobs()[j].dep@[k] as int;
            &&& self.jobs()[d].ready
            &&& self.jobs()[d].return_value is Some
        } by {
            let d = self.jobs()[j].dep@[k] as int;
            assert(self.jobs()[j].exec_counter == in_degree(self.next_lists(), j as usize));
            lemma_occurrences_le_in_degree(self.next_lists(), d, j as usize);
            assert(self.next_lists()[d] == self.jobs()[d].next_jobs@);
        }
        assert forall|k: int| 0 <= k < self.dep_entries(j).len() implies {
            &&& (#[trigger] self.dep_entries(j)[k]).1
            &&& self.dep_entries(j)[k].0 is Some
        } by {
            let d = self.jobs()[j].dep@[k] as int;
            assert(self.jobs()[d].ready);
        }
    }

    /// A store whose jobs keep their counters, successors and dependencies
    /// is as consistent as before.
    proof fn lemma_wf_same_graph(&self, other: &Self)
        requires
            other.wf(),
            self.jobs().len() == other.jobs().len(),
            forall|k: int| 0 <= k < self.jobs().len() ==> {
                &&& (#[trigger] self.jobs()[k]).exec_counter == other.jobs()[k].exec_counter
                &&& self.jobs()[k].next_jobs@ == other.jobs()[k].next_jobs@
                &&& self.jobs()[k].dep@ == other.jobs()[k].dep@
            },
        ensures
            self.wf(),
    {
        assert(self.next_lists() =~= other.next_lists());
        assert forall|p: int, k: int|
            0 <= p < self.jobs().len() && 0 <= k < self.jobs()[p].next_jobs@.len()
            implies #[trigger] self.jobs()[p].next_jobs@[k] < self.jobs().len() by {
            assert(other.jobs()[p].next_jobs@[k] < other.jobs().len());
        }
        assert forall|p: int, k: int|
            0 <= p < self.jobs().len() && 0 <= k < self.jobs()[p].dep@.len()
            implies #[trigger] self.jobs()[p].dep@[k] < self.jobs().len() by {
            assert(other.jobs()[p].dep@[k] < other.jobs().len());
        }
        assert forall|j: int| 0 <= j < self.jobs().len() implies #[trigger] self.jobs()[j].exec_counter
            == in_degree(self.next_lists(), j as usize) by {
            assert(other.jobs()[j].exec_counter == in_degree(other.next_lists(), j as usize));
        }
    }

    /// An empty store.
    pub fn new() -> (r: Self)
        ensures
            r.wf(),
            r.tasks().len() == 0,
            r.jobs().len() == 0,
    {
        ExecutableStore { tasks: Vec::new(), jobs: Vec::new() }
    }

    /// The number of registered tasks.
    pub fn task_count(&self) -> (r: usize)
        ensures
            r == self.tasks().len(),
    {
        self.tasks.len()
    }

    /// The number of registered jobs.
    pub fn job_count(&self) -> (r: usize)
        ensures
            r == self.jobs().len(),
    {
        self.jobs.len()
    }

    /// The task at store position `i`.
    pub fn task(&self, i: usize) -> (r: &WaitingTask<T, O>)
        requires
            i < self.tasks().len(),
        ensures
            *r == self.tasks()[i as int],
    {
        &self.tasks[i]
    }

    /// The job at store position `j`.
    pub fn job(&self, j: usize) -> (r: &InnerJob<J, O>)
        requires
            j < self.jobs().len(),
        ensures
            *r == self.jobs()[j as int],
    {
        &self.jobs[j]
    }

    /// Drops the most recently registered task.
    pub(crate) fn pop_task(&mut self)
        requires
            old(self).wf(),
            old(self).tasks().len() > 0,
        ensures
            final(self).wf(),
            final(self).tasks() == old(self).tasks().drop_last(),
            final(self).jobs() == old(self).jobs(),
    {
        self.tasks.pop();
        assert(self.next_lists() =~= old(self).next_lists());
    }

    /// For each dependency of job `j`, in `after` order, its stored value and
    /// whether it is finished.
    pub open spec fn dep_entries(&self, j: int) -> Seq<(Option<O>, bool)> {
        self.jobs()[j].dep@.map_values(|d: usize| (self.jobs()[d as int].return_value, self.jobs()[d as int].ready))
    }

    /// The dependency values handed to job `j` when it runs: for each job in
    /// its dependency list, its stored value and whether it is finished.
    pub fn job_dep(&self, j: usize) -> (r: JobDep<'_, O>)
        requires
            self.wf(),
            j < self.jobs().len(),
        ensures
            r.entries().len() == self.jobs()[j as int].dep@.len(),
            forall|k: int| 0 <= k < r.entries().len() ==> #[trigger] r.entries()[k] == (
                self.jobs()[self.jobs()[j as int].dep@[k] as int].return_value,
                self.jobs()[self.jobs()[j as int].dep@[k] as int].ready,
            ),
    {
        let deps = &self.jobs[j].dep;
        let mut vec: Vec<(&Option<O>, bool)> = Vec::new();
        let mut k: usize = 0;
        while k < deps.len()
            invariant
                self.wf(),
                j < self.jobs@.len(),
                deps@ == self.jobs@[j as int].dep@,
                k <= deps@.len(),
                vec@.len() == k,
                forall|i: int| 0 <= i < k ==> {
                    &&& *(#[trigger] vec@[i]).0 == self.jobs@[deps@[i] as int].return_value
                    &&& vec@[i].1 == self.jobs@[deps@[i] as int].ready
                },
            decreases deps@.len() - k,
        {
            let d = deps[k];
            assert(d < self.jobs@.len());
            let entry = &self.jobs[d];
            vec.push((&entry.return_value, entry.ready));
            k = k + 1;
        }
        let ghost v = vec@;
        let r = JobDep::from_vec(vec);
        proof {
            assert forall|i: int| 0 <= i < r.entries().len() implies #[trigger] r.entries()[i] == (
                self.jobs()[self.jobs()[j as int].dep@[i] as int].return_value,
                self.jobs()[self.jobs()[j as int].dep@[i] as int].ready,
            ) by {
                assert(r.entries()[i] == (*v[i].0, v[i].1));
            }
        }
        r
    }
}

impl Job {
    /// The store position of the job.
    pub fn position(&self) -> (r: usize)
        ensures
            r == self.inner,
    {
        self.inner
    }

    /// Registers a job in the store; it has no dependencies yet.
    pub fn new<T, J, O>(store: &mut ExecutableStore<T, J, O>, f: J) -> (r: Job)
        requires
            old(store).wf(),
        ensures
            final(store).wf(),
            r.inner == old(store).jobs().len(),
            final(store).jobs() == old(store).jobs().push(final(store).jobs()[r.inner as int]),
            final(store).tasks() == old(store).tasks(),
            final(store).jobs()[r.inner as int].f == f,
            final(store).jobs()[r.inner as int].exec_counter == 0,
            final(store).jobs()[r.inner as int].return_value is None,
            !final(store).jobs()[r.inner as int].ready,
            final(store).jobs()[r.inner as int].next_jobs@ == Seq::<usize>::empty(),
            final(store).jobs()[r.inner as int].dep@ == Seq::<usize>::empty(),
            old(store).deps_settled() ==> final(store).deps_settled(),
    {
        let id = store.jobs.len();
        let ghost lists = old(store).next_lists();
        store.jobs.push(InnerJob::new(f));
        proof {
            assert(store.next_lists() =~= lists.push(Seq::<usize>::empty()));
            assert forall|j: int| 0 <= j < store.jobs().len() implies #[trigger] store.jobs()[j].exec_counter
                == in_degree(store.next_lists(), j as usize) by {
                lemma_in_degree_push(lists, Seq::<usize>::empty(), j as usize);
                lemma_occurrences_empty(j as usize);
                if j == id {
                    lemma_in_degree_absent(lists, j as usize);
                }
            }
            let n0 = old(store).jobs().len();
            assert forall|p: int, k: int|
                0 <= p < store.jobs().len() && 0 <= k < store.jobs()[p].next_jobs@.len()
                implies #[trigger] store.jobs()[p].next_jobs@[k] < store.jobs().len() by {
                if p < n0 {
                    assert(store.jobs()[p] == old(store).jobs()[p]);
                    assert(old(store).jobs()[p].next_jobs@[k] < n0);
                }
            }
            assert forall|p: int, k: int|
                0 <= p < store.jobs().len() && 0 <= k < store.jobs()[p].dep@.len()
                implies #[trigger] store.jobs()[p].dep@[k] < store.jobs().len() by {
                if p < n0 {
                    assert(store.jobs()[p] == old(store).jobs()[p]);
                    assert(old(store).jobs()[p].dep@[k] < n0);
                }
            }
            if old(store).deps_settled() {
                assert forall|j: int, k: int| 0 <= j < store.jobs().len() && 0 <= k < store.jobs()[j].dep@.len() implies {
                    let d = #[trigger] store.jobs()[j].dep@[k];
                    store.jobs()[d as int].ready || occurrences(store.jobs()[d as int].next_jobs@, j as usize) > 0
                } by {
                    assert(j < n0);
                    assert(store.jobs()[j] == old(store).jobs()[j]);
                    let d = old(store).jobs()[j].dep@[k];
                    assert(store.jobs()[d as int] == old(store).jobs()[d as int]);
                }
                assert forall|x: int| 0 <= x < store.jobs().len() && #[trigger] store.jobs()[x].ready
                    implies store.jobs()[x].return_value is Some by {
                    assert(store.jobs()[x] == old(store).jobs()[x]);
                }
            }
        }
        Job { inner: id }
    }

    /// Schedules `self` to run after `job`: `job`'s value becomes the next
    /// entry of `self`'s dependency values, and `self` waits for one more
    /// dependency.
    pub fn after<T, J, O>(self, store: &mut ExecutableStore<T, J, O>, job: &Job) -> (r: Job)
        requires
            old(store).wf(),
            self.inner < old(store).jobs().len(),
            job.inner < old(store).jobs().len(),
            old(store).jobs()[self.inner as int].exec_counter < usize::MAX,
        ensures
            r == self,
            final(store).wf(),
            final(store).tasks() == old(store).tasks(),
            final(store).jobs().len() == old(store).jobs().len(),
            final(store).counters() == old(store).counters().update(
                self.inner as int,
                old(store).counters()[self.inner as int] + 1,
            ),
            final(store).next_lists() == old(store).next_lists().update(
                job.inner as int,
                old(store).next_lists()[job.inner as int].push(self.inner),
            ),
            final(store).jobs()[self.inner as int].exec_counter == old(store).jobs()[self.inner as int].exec_counter + 1,
            forall|k: int| 0 <= k < old(store).jobs().len() && k != self.inner
                ==> #[trigger] final(store).jobs()[k].exec_counter == old(store).jobs()[k].exec_counter,
            final(store).jobs()[self.inner as int].dep@ == old(store).jobs()[self.inner as int].dep@.push(job.inner),
            forall|k: int| 0 <= k < old(store).jobs().len() && k != self.inner
                ==> #[trigger] final(store).jobs()[k].dep@ == old(store).jobs()[k].dep@,
            forall|k: int| 0 <= k < old(store).jobs().len()
                ==> {
                    &&& #[trigger] final(store).jobs()[k].f == old(store).jobs()[k].f
                    &&& final(store).jobs()[k].return_value == old(store).jobs()[k].return_value
                    &&& final(store).jobs()[k].ready == old(store).jobs()[k].ready
                },
            old(store).deps_settled() ==> final(store).deps_settled(),
            final(store).dep_entries(self.inner as int) == old(store).dep_entries(self.inner as int).push(
                (old(store).jobs()[job.inner as int].return_value, old(store).jobs()[job.inner as int].ready),
            ),
    {
        let me = self.inner;
        let other = job.inner;
        let ghost lists = old(store).next_lists();
        let c = store.jobs[me].exec_counter;
        store.jobs[me].exec_counter = c + 1;
        store.jobs[me].dep.push(other);
        store.jobs[other].next_jobs.push(me);
        proof {
            let new_list = lists[other as int].push(me);
            assert(store.jobs@.len() == store.jobs.len());
            assert(store.next_lists() =~= lists.update(other as int, new_list));
            assert(store.counters() =~= old(store).counters().update(me as int, old(store).counters()[me as int] + 1));
            assert forall|j: int| 0 <= j < store.jobs().len() implies #[trigger] store.jobs()[j].exec_counter
                == in_degree(store.next_lists(), j as usize) by {
                lemma_in_degree_update(lists, other as int, new_list, j as usize);
                lemma_occurrences_push(lists[other as int], me, j as usize);
                assert(old(store).jobs()[j].exec_counter == in_degree(lists, j as usize));
                assert(store.counters()[j] == store.jobs()[j].exec_counter);
            }
            assert forall|p: int, k: int| 0 <= p < store.jobs().len() && 0 <= k < store.jobs()[p].next_jobs@.len()
                implies #[trigger] store.jobs()[p].next_jobs@[k] < store.jobs().len() by {
                if p == other as int && k == store.jobs()[p].next_jobs@.len() - 1 {
                } else {
                    assert(store.jobs()[p].next_jobs@[k] == old(store).jobs()[p].next_jobs@[k]);
                }
            }
            assert forall|p: int, k: int| 0 <= p < store.jobs().len() && 0 <= k < store.jobs()[p].dep@.len()
                implies #[trigger] store.jobs()[p].dep@[k] < store.jobs().len() by {
                if p == me as int && k == store.jobs()[p].dep@.len() - 1 {
                } else {
                    assert(store.jobs()[p].dep@[k] == old(store).jobs()[p].dep@[k]);
                }
            }
            if old(store).deps_settled() {
                assert forall|j: int, k: int| 0 <= j < store.jobs().len() && 0 <= k < store.jobs()[j].dep@.len() implies {
                    let d = #[trigger] store.jobs()[j].dep@[k];
                    store.jobs()[d as int].ready || occurrences(store.jobs()[d as int].next_jobs@, j as usize) > 0
                } by {
                    let d = store.jobs()[j].dep@[k];
                    assert(store.jobs()[d as int].next_jobs@ == store.next_lists()[d as int]);
                    assert(old(store).jobs()[d as int].next_jobs@ == lists[d as int]);
                    if j == me as int && k == store.jobs()[j].dep@.len() - 1 {
                        assert(d == other);
                        lemma_occurrences_push(lists[other as int], me, me);
                    } else {
                        assert(store.jobs()[j].dep@[k] == old(store).jobs()[j].dep@[k]);
                        assert(old(store).jobs()[j].dep@[k] == d);
                        lemma_occurrences_push(lists[other as int], me, j as usize);
                    }
                }
                assert forall|x: int| 0 <= x < store.jobs().len() && #[trigger] store.jobs()[x].ready
                    implies store.jobs()[x].return_value is Some by {
                    assert(old(store).jobs()[x].ready);
                }
            }
        }
        proof {
            let e0 = old(store).dep_entries(me as int);
            let e1 = store.dep_entries(me as int);
            let d0 = old(store).jobs()[me as int].dep@;
            assert forall|k: int| 0 <= k < e1.len() implies #[trigger] e1[k] == e0.push(
                (old(store).jobs()[other as int].return_value, old(store).jobs()[other as int].ready),
            )[k] by {
                let d = store.jobs()[me as int].dep@[k];
                assert(d < old(store).jobs().len());
                assert(store.jobs()[d as int].return_value == old(store).jobs()[d as int].return_value);
                assert(store.jobs()[d as int].ready == old(store).jobs()[d as int].ready);
                if k < d0.len() {
                    assert(d == d0[k]);
                }
            }
            assert(e1 =~= e0.push((old(store).jobs()[other as int].return_value, old(store).jobs()[other as int].ready)));
        }
        self
    }
}


} // verus!

verus! {

/// Two job states agree on everything but their counter and successors.
pub open spec fn same_data<J, O>(a: InnerJob<J, O>, b: InnerJob<J, O>) -> bool {
    &&& a.f == b.f
    &&& a.return_value == b.return_value
    &&& a.ready == b.ready
    &&& a.dep == b.dep
}

/// The handles of the jobs at the given positions, in the same order.
pub open spec fn job_handles(ids: Seq<usize>) -> Seq<ExecutableTask> {
    ids.map_values(|j: usize| ExecutableTask::Job(j))
}

impl ExecutableTask {
    /// Whether the handle names a task or job registered in `store`.
    pub open spec fn runnable_in<T, J, O>(self, store: &ExecutableStore<T, J, O>) -> bool {
        match self {
            ExecutableTask::Task(i) => i < store.tasks().len(),
            ExecutableTask::Job(j) => j < store.jobs().len(),
            ExecutableTask::Dummy => false,
        }
    }

    /// Registers a task in the store and returns its handle.
    pub fn new_task<T, J, O>(store: &mut ExecutableStore<T, J, O>, task: T) -> (r: ExecutableTask)
        requires
            old(store).wf(),
        ensures
            final(store).wf(),
            r == ExecutableTask::Task(old(store).tasks().len() as usize),
            final(store).tasks() == old(store).tasks().push(WaitingTask { f: task, return_value: None, ready: false }),
            final(store).jobs() == old(store).jobs(),
    {
        let id = store.tasks.len();
        store.tasks.push(WaitingTask::new(task));
        assert(store.next_lists() =~= old(store).next_lists());
        ExecutableTask::Task(id)
    }

    /// Runs the task or job the handle names and returns its value. A job
    /// receives the values of its dependencies, in `after` order.
    pub fn execute<'a, T: OrqestraTaskTrait<O>, J: OrqestraJobTrait<O>, O>(
        &self,
        store: &'a ExecutableStore<T, J, O>,
    ) -> (r: O)
        requires
            store.wf(),
            self.runnable_in(store),
        ensures
            match *self {
                ExecutableTask::Task(i) => call_ensures(
                    <T as OrqestraTaskTrait<O>>::execute,
                    (&store.tasks()[i as int].f,),
                    r,
                ),
                ExecutableTask::Job(j) => exists|d: JobDep<'a, O>|
                    #![trigger call_ensures(<J as OrqestraJobTrait<O>>::execute, (&store.jobs()[j as int].f, d), r)]
                    d.entries() == store.dep_entries(j as int)
                        && call_ensures(<J as OrqestraJobTrait<O>>::execute, (&store.jobs()[j as int].f, d), r)
                        && d.entries().len() == store.jobs()[j as int].dep@.len()
                        && forall|k: int| 0 <= k < d.entries().len() ==> #[trigger] d.entries()[k] == (
                            store.jobs()[store.jobs()[j as int].dep@[k] as int].return_value,
                            store.jobs()[store.jobs()[j as int].dep@[k] as int].ready,
                        ),
                ExecutableTask::Dummy => false,
            },
    {
        match *self {
            ExecutableTask::Task(i) => store.tasks[i].f.execute(),
            ExecutableTask::Job(j) => {
                let dep = store.job_dep(j);
                assert(dep.entries() =~= store.dep_entries(j as int));
                let r = store.jobs[j].f.execute(dep);
                r
            },
            ExecutableTask::Dummy => {
                assert(false);
                store.tasks[0].f.execute()
            },
        }
    }

    /// Stores `value` as the result of the task or job the handle names and
    /// marks it finished; the placeholder stores nothing.
    pub fn update_value<T, J, O>(&self, store: &mut ExecutableStore<T, J, O>, value: O)
        requires
            old(store).wf(),
            self is Task ==> self.runnable_in(old(store)),
            self is Job ==> self->Job_0 < old(store).jobs().len(),
        ensures
            final(store).wf(),
            match *self {
                ExecutableTask::Task(i) => {
                    &&& final(store).jobs() == old(store).jobs()
                    &&& final(store).tasks() == old(store).tasks().update(
                        i as int,
                        WaitingTask { f: old(store).tasks()[i as int].f, return_value: Some(value), ready: true },
                    )
                },
                ExecutableTask::Job(j) => {
                    &&& final(store).tasks() == old(store).tasks()
                    &&& final(store).jobs() == old(store).jobs().update(
                        j as int,
                        InnerJob {
                            return_value: Some(value),
                            ready: true,
                            ..old(store).jobs()[j as int]
                        },
                    )
                },
                ExecutableTask::Dummy => *final(store) == *old(store),
            },
    {
        match *self {
            ExecutableTask::Task(i) => {
                store.tasks[i].return_value = Some(value);
                store.tasks[i].ready = true;
                assert(store.jobs@ == old(store).jobs@);
                assert(store.next_lists() =~= old(store).next_lists());
            },
            ExecutableTask::Job(j) => {
                store.jobs[j].return_value = Some(value);
                store.jobs[j].ready = true;
                proof {
                    store.lemma_wf_same_graph(old(store));
                }
            },
            ExecutableTask::Dummy => {},
        }
    }

    /// Runs the task or job the handle names and stores the value its
    /// `execute` returned (for a job, on the values of its dependencies).
    pub fn execute_then_update<T: OrqestraTaskTrait<O>, J: OrqestraJobTrait<O>, O>(
        &self,
        store: &mut ExecutableStore<T, J, O>,
    )
        requires
            old(store).wf(),
            self.runnable_in(old(store)),
        ensures
            final(store).wf(),
            match *self {
                ExecutableTask::Task(i) => {
                    &&& final(store).jobs() == old(store).jobs()
                    &&& final(store).tasks().len() == old(store).tasks().len()
                    &&& forall|k: int| 0 <= k < old(store).tasks().len() && k != i
                        ==> #[trigger] final(store).tasks()[k] == old(store).tasks()[k]
                    &&& final(store).tasks()[i as int].f == old(store).tasks()[i as int].f
                    &&& final(store).tasks()[i as int].return_value is Some
                    &&& call_ensures(
                        <T as OrqestraTaskTrait<O>>::execute,
                        (&old(store).tasks()[i as int].f,),
                        final(store).tasks()[i as int].return_value->Some_0,
                    )
                    &&& final(store).tasks()[i as int].ready
                },
                ExecutableTask::Job(j) => {
                    &&& final(store).tasks() == old(store).tasks()
                    &&& final(store).jobs().len() == old(store).jobs().len()
                    &&& forall|k: int| 0 <= k < old(store).jobs().len() && k != j
                        ==> #[trigger] final(store).jobs()[k] == old(store).jobs()[k]
                    &&& final(store).jobs()[j as int].return_value is Some
                    &&& exists|d: JobDep<'_, O>|
                        #![trigger call_ensures(<J as OrqestraJobTrait<O>>::execute, (&old(store).jobs()[j as int].f, d), final(store).jobs()[j as int].return_value->Some_0)]
                        d.entries() == old(store).dep_entries(j as int) && call_ensures(
                            <J as OrqestraJobTrait<O>>::execute,
                            (&old(store).jobs()[j as int].f, d),
                            final(store).jobs()[j as int].return_value->Some_0,
                        )
                    &&& final(store).jobs()[j as int].ready
                    &&& final(store).jobs()[j as int].f == old(store).jobs()[j as int].f
                    &&& final(store).jobs()[j as int].exec_counter == old(store).jobs()[j as int].exec_counter
                    &&& final(store).jobs()[j as int].next_jobs == old(store).jobs()[j as int].next_jobs
                    &&& final(store).jobs()[j as int].dep == old(store).jobs()[j as int].dep
                },
                ExecutableTask::Dummy => false,
            },
    {
        let value = self.execute(store);
        self.update_value(store, value);
        proof {
            if let ExecutableTask::Task(i) = *self {
                assert(store.tasks()[i as int].return_value == Some(value));
            }
            if let ExecutableTask::Job(j) = *self {
                let st0 = *old(store);
                let d = choose|d: JobDep<'_, O>|
                    #![trigger call_ensures(<J as OrqestraJobTrait<O>>::execute, (&st0.jobs()[j as int].f, d), value)]
                    d.entries() == st0.dep_entries(j as int)
                        && call_ensures(<J as OrqestraJobTrait<O>>::execute, (&st0.jobs()[j as int].f, d), value);
                assert(store.jobs()[j as int].return_value->Some_0 == value);
                assert(call_ensures(
                    <J as OrqestraJobTrait<O>>::execute,
                    (&old(store).jobs()[j as int].f, d),
                    store.jobs()[j as int].return_value->Some_0,
                ));
            }
        }
    }

    /// Once the job the handle names has run, every job registered to run
    /// after it loses one pending dependency, in the order they were
    /// registered; each job whose count of pending dependencies reaches zero
    /// is appended to `saving_jobs`. The successor list of the finished job
    /// is emptied. A task or the placeholder changes nothing.
    pub fn next_job<T, J, O>(&self, store: &mut ExecutableStore<T, J, O>, saving_jobs: &mut VecDeque<ExecutableTask>)
        requires
            old(store).wf(),
            self is Job ==> self->Job_0 < old(store).jobs().len(),
        ensures
            final(store).wf(),
            final(store).tasks() == old(store).tasks(),
            final(store).jobs().len() == old(store).jobs().len(),
            self is Job ==> final(store).next_lists() == old(store).next_lists().update(
                self->Job_0 as int,
                Seq::<usize>::empty(),
            ),
            self is Job ==> forall|j: int| 0 <= j < old(store).jobs().len() ==>
                #[trigger] final(store).counters()[j] == old(store).counters()[j]
                    - occurrences(old(store).next_lists()[self->Job_0 as int], j as usize),
            forall|k: int| 0 <= k < old(store).jobs().len() ==> same_data(
                #[trigger] final(store).jobs()[k],
                old(store).jobs()[k],
            ),
            self is Job ==> final(saving_jobs)@ == old(saving_jobs)@ + job_handles(released(
                old(store).next_lists()[self->Job_0 as int],
                old(store).counters(),
                old(store).next_lists()[self->Job_0 as int].len(),
            )),
            !(self is Job) ==> final(store).jobs() == old(store).jobs(),
            !(self is Job) ==> final(saving_jobs)@ == old(saving_jobs)@,
    {
        if let ExecutableTask::Job(p) = *self {
            let ghost lists0 = old(store).next_lists();
            let ghost counters0 = old(store).counters();
            let ghost jobs0 = old(store).jobs();
            let ghost saving0 = old(saving_jobs)@;
            let mut list: Vec<usize> = Vec::new();
            std::mem::swap(&mut list, &mut store.jobs[p].next_jobs);
            proof {
                assert(store.jobs@.len() == store.jobs.len());
                assert(jobs0.len() <= usize::MAX);
                assert(store.next_lists() =~= lists0.update(p as int, Seq::<usize>::empty()));
                assert(list@ == lists0[p as int]);
                assert(list@.take(0) =~= Seq::<usize>::empty());
                assert(job_handles(released(list@, counters0, 0)) =~= Seq::<ExecutableTask>::empty());
                assert(saving_jobs@ =~= saving0 + job_handles(released(list@, counters0, 0)));
            }
            let n = list.len();
            let mut k: usize = 0;
            while k < n
                invariant
                    0 <= p < jobs0.len(),
                    n == list@.len(),
                    k <= n,
                    list@ == lists0[p as int],
                    lists0 == jobs0.map_values(|jb: InnerJob<J, O>| jb.next_jobs@),
                    counters0 == jobs0.map_values(|jb: InnerJob<J, O>| jb.exec_counter as nat),
                    store.jobs@.len() == jobs0.len(),
                    jobs0.len() <= usize::MAX,
                    store.tasks() == old(store).tasks(),
                    store.next_lists() == lists0.update(p as int, Seq::<usize>::empty()),
                    forall|i: int| 0 <= i < n ==> #[trigger] list@[i] < jobs0.len(),
                    forall|j: int| 0 <= j < jobs0.len() ==> #[trigger] jobs0[j].exec_counter == in_degree(lists0, j as usize),
                    forall|j: int| 0 <= j < jobs0.len() ==>
                        #[trigger] store.jobs@[j].exec_counter == counters0[j] - occurrences(list@.take(k as int), j as usize),
                    forall|i: int| 0 <= i < jobs0.len() ==> same_data(#[trigger] store.jobs@[i], jobs0[i]),
                    saving_jobs@ == saving0 + job_handles(released(list@, counters0, k as nat)),
                decreases n - k,
            {
                let j = list[k];
                let c = store.jobs[j].exec_counter;
                proof {
                    lemma_occurrences_take_step(list@, k as int, j);
                    lemma_occurrences_take_le(list@, k as int + 1, j);
                    lemma_occurrences_le_in_degree(lists0, p as int, j);
                    assert(jobs0[j as int].exec_counter == in_degree(lists0, j));
                    assert(counters0[j as int] == jobs0[j as int].exec_counter);
                }
                let ghost before = store.jobs@;
                store.jobs[j].exec_counter = c - 1;
                proof {
                    assert(store.jobs@ == before.update(j as int, InnerJob { exec_counter: (c - 1) as usize, ..before[j as int] }));
                    assert forall|jj: int| 0 <= jj < jobs0.len() && jj != j implies
                        #[trigger] store.jobs@[jj].exec_counter == before[jj].exec_counter by {
                    }
                }
                if c == 1 {
                    saving_jobs.push_back(ExecutableTask::new_job_from_arc_inner(j));
                }
                proof {
                    assert(list@.take(k as int + 1).take(k as int) =~= list@.take(k as int));
                    let r0 = released(list@, counters0, k as nat);
                    let r1 = released(list@, counters0, (k + 1) as nat);
                    if c == 1 {
                        assert(r1 == r0.push(j));
                        assert(job_handles(r1) =~= job_handles(r0).push(ExecutableTask::Job(j)));
                    } else {
                        assert(r1 == r0);
                    }
                    assert(saving_jobs@ =~= saving0 + job_handles(r1));
                    assert forall|jj: int| 0 <= jj < jobs0.len() implies
                        #[trigger] store.jobs@[jj].exec_counter == counters0[jj] - occurrences(list@.take(k + 1), jj as usize) by {
                        lemma_occurrences_take_step(list@, k as int, jj as usize);
                        assert(before[jj].exec_counter == counters0[jj] - occurrences(list@.take(k as int), jj as usize));
                    }
                    assert(store.next_lists() =~= lists0.update(p as int, Seq::<usize>::empty()));
                    assert forall|i: int| 0 <= i < jobs0.len() implies same_data(#[trigger] store.jobs@[i], jobs0[i]) by {
                        assert(same_data(before[i], jobs0[i]));
                    }
                }
                k = k + 1;
            }
            proof {
                assert(list@.take(n as int) =~= list@);
                assert forall|j: int| 0 <= j < store.jobs@.len() implies
                    #[trigger] store.jobs@[j].exec_counter == in_degree(store.next_lists(), j as usize) by {
                    lemma_in_degree_update(lists0, p as int, Seq::<usize>::empty(), j as usize);
                    lemma_occurrences_empty(j as usize);
                }
                assert forall|pp: int, kk: int| 0 <= pp < store.jobs@.len() && 0 <= kk < store.jobs@[pp].next_jobs@.len()
                    implies #[trigger] store.jobs@[pp].next_jobs@[kk] < store.jobs@.len() by {
                    assert(store.next_lists()[pp] == store.jobs@[pp].next_jobs@);
                    assert(lists0[pp] == jobs0[pp].next_jobs@);
                }
                assert forall|pp: int, kk: int| 0 <= pp < store.jobs@.len() && 0 <= kk < store.jobs@[pp].dep@.len()
                    implies #[trigger] store.jobs@[pp].dep@[kk] < store.jobs@.len() by {
                    assert(store.jobs@[pp].f == jobs0[pp].f);
                    assert(store.jobs@[pp].dep == jobs0[pp].dep);
                }
                assert forall|j: int| 0 <= j < jobs0.len() implies
                    #[trigger] store.counters()[j] == counters0[j] - occurrences(lists0[p as int], j as usize) by {
                    assert(store.counters()[j] == store.jobs@[j].exec_counter);
                }
                assert(saving_jobs@ == saving0 + job_handles(released(lists0[p as int], counters0, lists0[p as int].len())));
                assert forall|i: int| 0 <= i < jobs0.len() implies same_data(#[trigger] store.jobs()[i], jobs0[i]) by {
                    assert(store.jobs@[i].f == jobs0[i].f);
                }
            }
        }
    }
}

} // verus!

verus! {

/// Once job `p` has run, [`ExecutableTask::next_job`] releases a job exactly
/// when that job follows `p` and every dependency it still waits for is an
/// edge from `p`; it releases no job twice.
pub proof fn lemma_next_job_releases_exactly<T, J, O>(store: &ExecutableStore<T, J, O>, p: usize)
    requires
        store.wf(),
        p < store.jobs().len(),
    ensures
        released(store.next_lists()[p as int], store.counters(), store.next_lists()[p as int].len()).no_duplicates(),
        forall|j: usize| j < store.jobs().len() ==> (#[trigger] released(
            store.next_lists()[p as int],
            store.counters(),
            store.next_lists()[p as int].len(),
        ).contains(j) <==> (store.next_lists()[p as int].contains(j) && in_degree(store.next_lists(), j)
            == occurrences(store.next_lists()[p as int], j))),
{
    let list = store.next_lists()[p as int];
    let counters = store.counters();
    assert forall|k: int| 0 <= k < list.len() implies #[trigger] list[k] < counters.len() by {
        assert(store.jobs()[p as int].next_jobs@[k] < store.jobs().len());
    }
    assert forall|x: usize| #![trigger occurrences(list, x)] x < counters.len() implies counters[x as int] >= occurrences(list, x) by {
        lemma_occurrences_le_in_degree(store.next_lists(), p as int, x);
        assert(store.jobs()[x as int].exec_counter == in_degree(store.next_lists(), x));
    }
    lemma_released_exactly_last_dependency(list, counters);
    assert forall|j: usize| j < store.jobs().len() implies counters[j as int] == in_degree(store.next_lists(), j) by {
        assert(store.jobs()[j as int].exec_counter == in_degree(store.next_lists(), j));
    }
}

} // verus!

verus! {

impl<T: OrqestraTaskTrait<O>, J: OrqestraJobTrait<O>, O> ExecutableStore<T, J, O> {
    /// Every finished task holds a value its `execute` returned, and every
    /// finished job a value its `execute` returned on some dependency values.
    pub open spec fn values_from_execute(&self) -> bool {
        &&& forall|i: int| 0 <= i < self.tasks().len() && #[trigger] self.tasks()[i].ready ==> {
            &&& self.tasks()[i].return_value is Some
            &&& call_ensures(
                <T as OrqestraTaskTrait<O>>::execute,
                (&self.tasks()[i].f,),
                self.tasks()[i].return_value->Some_0,
            )
        }
        &&& forall|x: int| 0 <= x < self.jobs().len() && #[trigger] self.jobs()[x].ready ==> {
            &&& self.jobs()[x].return_value is Some
            &&& exists|d: JobDep<'_, O>|
                #![trigger call_ensures(<J as OrqestraJobTrait<O>>::execute, (&self.jobs()[x].f, d), self.jobs()[x].return_value->Some_0)]
                call_ensures(
                    <J as OrqestraJobTrait<O>>::execute,
                    (&self.jobs()[x].f, d),
                    self.jobs()[x].return_value->Some_0,
                )
        }
    }
}

/// The task or job that `t` names has run and holds its value.
pub open spec fn finished<T, J, O>(store: &ExecutableStore<T, J, O>, t: ExecutableTask) -> bool {
    match t {
        ExecutableTask::Task(i) => i < store.tasks().len() && store.tasks()[i as int].ready,
        ExecutableTask::Job(j) => j < store.jobs().len() && store.jobs()[j as int].ready,
        ExecutableTask::Dummy => false,
    }
}

} // verus!

verus! {

/// A running job is handed the values of the jobs it was scheduled after,
/// in the order of its `after` calls: its `k`-th dependency entry is the
/// stored value and finished flag of the job passed to its `k`-th `after`
/// call.
pub proof fn lemma_dependency_values_in_after_order<T, J, O>(store: &ExecutableStore<T, J, O>, j: int)
    requires
        store.wf(),
        0 <= j < store.jobs().len(),
    ensures
        store.dep_entries(j).len() == store.jobs()[j].dep@.len(),
        forall|k: int| 0 <= k < store.dep_entries(j).len() ==> #[trigger] store.dep_entries(j)[k] == (
            store.jobs()[store.jobs()[j].dep@[k] as int].return_value,
            store.jobs()[store.jobs()[j].dep@[k] as int].ready,
        ),
{
}

} // verus!
