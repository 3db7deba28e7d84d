use vstd::prelude::*;
use crate::executable_task::ExecutableTask;
use crate::job::{Job, JobDep, OrqestraJobTrait};
use crate::ring_buffer_core::{
    RingBufferCore, RingBufferState, lemma_enqueue_keeps_every_executable, next_count, option_tasks,
};
use crate::store::{ExecutableStore, finished};
use crate::task::{OrqestraTaskTrait, WaitingTask};
use crate::worker::{
    Worker, WorkerAction, WorkerState, all_runnable_in, executed_of, first_saved, lemma_only_jobs_no_task,
    released_of,
    lemma_ran_finishes, only_jobs, stepped, tasks_unique,
};
use vstd::multiset::Multiset;

verus! {

/// The number of values of a `u64` counter.
pub open spec fn counter_range() -> nat {
    0x1_0000_0000_0000_0000
}

/// A counter that stands for `total` modulo the counter range stands for
/// `total + 1` after one wrapping increment.
pub proof fn lemma_next_count_tracks(x: u64, total: nat)
    requires
        x as nat == total % counter_range(),
    ensures
        next_count(x) as nat == (total + 1) % counter_range(),
{
    let m = counter_range() as int;
    vstd::arithmetic::div_mod::lemma_add_mod_noop(total as int, 1, m);
    vstd::arithmetic::div_mod::lemma_small_mod(1, m as nat);
    if x == u64::MAX {
        vstd::arithmetic::div_mod::lemma_mod_self_0(m);
    } else {
        vstd::arithmetic::div_mod::lemma_small_mod((x + 1) as nat, m as nat);
    }
}

/// How many rounds `join` spends yielding before it parks between checks.
pub const JOIN_YIELD_ROUNDS: usize = 500;

/// What the thread waiting in `join` does next.
#[derive(Clone, Copy, Debug, PartialEq, Eq, Structural)]
pub enum JoinAction {
    /// Every registered executable has run: stop waiting.
    Finished,
    /// Yield the thread, then check again.
    Yield,
    /// Park the thread for a short while, then check again.
    Park,
}

/// The worker side of the scheduler: the count of executables run, the stop
/// signal, and the state of each of the `WORKERS_SIZE` workers.
pub struct ExecuteCore<const WORKERS_SIZE: usize> {
    done_task: u64,
    join_flag: bool,
    workers: Vec<Worker>,
}

impl<const WORKERS_SIZE: usize> ExecuteCore<WORKERS_SIZE> {
    /// How many executables the workers ran (wrapping).
    pub closed spec fn done(&self) -> u64 {
        self.done_task
    }

    /// Whether the workers were told to stop.
    pub closed spec fn stopping(&self) -> bool {
        self.join_flag
    }

    /// The workers.
    pub closed spec fn worker_seq(&self) -> Seq<Worker> {
        self.workers@
    }

    /// No executable run yet, no stop signal, and `WORKERS_SIZE` fresh
    /// workers numbered from zero.
    fn new() -> (r: Self)
        ensures
            r.done() == 0,
            !r.stopping(),
            r.worker_seq().len() == WORKERS_SIZE,
            forall|i: int| 0 <= i < WORKERS_SIZE ==> (#[trigger] r.worker_seq()[i]).ident() == i
                && r.worker_seq()[i]@ == (WorkerState { break_counter: 0, order: None, saving: Seq::empty(), toggle: false }),
    {
        let mut workers: Vec<Worker> = Vec::with_capacity(WORKERS_SIZE);
        let mut i: usize = 0;
        while i < WORKERS_SIZE
            invariant
                i <= WORKERS_SIZE,
                workers@.len() == i,
                forall|k: int| 0 <= k < i ==> (#[trigger] workers@[k]).ident() == k
                    && workers@[k]@ == (WorkerState { break_counter: 0, order: None, saving: Seq::empty(), toggle: false }),
            decreases WORKERS_SIZE - i,
        {
            workers.push(Worker::new(i));
            i = i + 1;
        }
        ExecuteCore { done_task: 0, join_flag: false, workers }
    }

    /// How many executables the workers ran (wrapping).
    pub fn done_task(&self) -> (r: u64)
        ensures
            r == self.done(),
    {
        self.done_task
    }

    /// Whether the workers were told to stop.
    pub fn join_flag(&self) -> (r: bool)
        ensures
            r == self.stopping(),
    {
        self.join_flag
    }

    /// The number of workers.
    pub fn worker_count(&self) -> (r: usize)
        ensures
            r == self.worker_seq().len(),
    {
        self.workers.len()
    }
}

/// The scheduler: a ring buffer of executables, the store of tasks and jobs
/// they name, and the workers that run them.
///
/// Tasks are spawned into the ring buffer; jobs form a dependency graph and
/// only the first jobs of a graph are submitted with `job_exec`; the others
/// are released by the workers as their dependencies finish. Each call of
/// `worker_step` is one round of one worker's loop; the threads that call it
/// and the waiting in `join` stand outside.
pub struct Orqestra<T, J, O, const RING_BUFFER_SIZE: usize, const WORKERS_SIZE: usize> {
    ring_buffer_core: RingBufferCore<RING_BUFFER_SIZE>,
    store: ExecutableStore<T, J, O>,
    execute_core: ExecuteCore<WORKERS_SIZE>,
    /// Every executable registered in the ring buffer so far, once per
    /// registration.
    registered: Ghost<Multiset<ExecutableTask>>,
    /// Every executable the workers ran so far, once per run.
    executed: Ghost<Multiset<ExecutableTask>>,
    /// Every executable `drop_queue` dropped.
    dropped: Ghost<Multiset<ExecutableTask>>,
    /// Every task spawned and every job submitted with `job_exec`.
    roots: Ghost<Multiset<ExecutableTask>>,
    /// Every job a worker released once its last dependency ran.
    released: Ghost<Multiset<ExecutableTask>>,
}

impl<T: OrqestraTaskTrait<O>, J: OrqestraJobTrait<O>, O, const RING_BUFFER_SIZE: usize, const WORKERS_SIZE: usize> Orqestra<T, J, O, RING_BUFFER_SIZE, WORKERS_SIZE> {
    /// The state of the ring buffer.
    pub closed spec fn ring(&self) -> RingBufferState {
        self.ring_buffer_core@
    }

    /// The tasks and jobs.
    pub closed spec fn store_view(&self) -> ExecutableStore<T, J, O> {
        self.store
    }

    /// How many executables the workers ran (wrapping).
    pub closed spec fn done(&self) -> u64 {
        self.execute_core.done_task
    }

    /// Whether the workers were told to stop.
    pub closed spec fn stopping(&self) -> bool {
        self.execute_core.join_flag
    }

    /// The state of worker `i`.
    pub closed spec fn worker(&self, i: int) -> WorkerState {
        self.execute_core.workers@[i]@
    }

    /// How many executables were registered in the ring buffer so far,
    /// without wrapping.
    pub closed spec fn registered_total(&self) -> nat {
        self.registered@.len()
    }

    /// How many executables the workers ran so far, without wrapping.
    pub closed spec fn executed_total(&self) -> nat {
        self.executed@.len()
    }

    /// How many executables `drop_queue` dropped so far.
    pub closed spec fn dropped_total(&self) -> nat {
        self.dropped@.len()
    }

    /// Every executable registered in the ring buffer so far, once per
    /// registration: each spawned task, each job submitted with `job_exec`,
    /// and each released job a worker put back into the ring.
    pub closed spec fn registered_items(&self) -> Multiset<ExecutableTask> {
        self.registered@
    }

    /// Every executable the workers ran so far, once per run.
    pub closed spec fn executed_items(&self) -> Multiset<ExecutableTask> {
        self.executed@
    }

    /// Every executable `drop_queue` dropped.
    pub closed spec fn dropped_items(&self) -> Multiset<ExecutableTask> {
        self.dropped@
    }

    /// Every task spawned and every job submitted with `job_exec`, once per
    /// call.
    pub closed spec fn root_items(&self) -> Multiset<ExecutableTask> {
        self.roots@
    }

    /// Every job a worker released once its last dependency ran, once per
    /// release.
    pub closed spec fn released_items(&self) -> Multiset<ExecutableTask> {
        self.released@
    }

    /// The released jobs that wait in the workers to be put back into the
    /// ring buffer.
    pub closed spec fn saved_items(&self) -> Multiset<ExecutableTask> {
        all_saved(self.execute_core.workers@)
    }

    /// The parts are consistent, every executable in the ring buffer or
    /// saved in a worker names a task or job of the store, every dependency
    /// of a job has finished or still counts against it, and every
    /// registered executable has run, was dropped, or is still in the ring
    /// buffer.
    pub closed spec fn wf(&self) -> bool {
        &&& self.wf_but_tasks()
        &&& self.tasks_registered(None)
    }

    /// Every task of the store was registered exactly once, except `fresh`,
    /// which is not registered yet.
    closed spec fn tasks_registered(&self, fresh: Option<usize>) -> bool {
        forall|i: usize| #[trigger] self.registered@.count(ExecutableTask::Task(i))
            == if i < self.store.tasks().len() && fresh != Some(i) { 1nat } else { 0nat }
    }

    /// Everything [`Orqestra::wf`] asks but that each task was registered.
    closed spec fn wf_but_tasks(&self) -> bool {
        &&& self.ring_buffer_core@.in_task as nat == self.registered@.len() % counter_range()
        &&& self.execute_core.done_task as nat == self.executed@.len() % counter_range()
        &&& self.registered@ == self.executed@.add(self.dropped@).add(self.ring_buffer_core@.contents())
        &&& self.registered@.add(all_saved(self.execute_core.workers@)) == self.roots@.add(self.released@)
        &&& forall|x: ExecutableTask| #[trigger] self.executed@.count(x) > 0 ==> finished(&self.store, x)
        &&& self.store.values_from_execute()
        &&& self.ring_buffer_core.wf()
        &&& self.store.wf()
        &&& self.store.deps_settled()
        &&& RING_BUFFER_SIZE > 0
        &&& self.execute_core.workers@.len() == WORKERS_SIZE
        &&& forall|i: int| 0 <= i < WORKERS_SIZE ==> {
            &&& (#[trigger] self.execute_core.workers@[i]).wf(RING_BUFFER_SIZE)
            &&& self.execute_core.workers@[i].ident() == i
            &&& all_runnable_in(self.execute_core.workers@[i]@.saving.to_multiset(), &self.store)
            &&& only_jobs(self.execute_core.workers@[i]@.saving)
        }
        &&& all_runnable_in(self.ring_buffer_core@.contents(), &self.store)
        &&& tasks_unique(self.ring_buffer_core@.contents())
    }

    /// An empty scheduler with `WORKERS_SIZE` idle workers.
    pub fn new() -> (r: Self)
        requires
            0 < RING_BUFFER_SIZE <= usize::MAX / 2,
        ensures
            r.wf(),
            r.ring() == (RingBufferState {
                in_task: 0,
                head: 0,
                tail: 0,
                slots: Seq::new(RING_BUFFER_SIZE as nat, |i: int| None::<ExecutableTask>),
                registered: 0,
                waiting: Seq::<(usize, ExecutableTask)>::empty(),
                secondary: Seq::<ExecutableTask>::empty(),
            }),
            r.store_view().tasks().len() == 0,
            r.store_view().jobs().len() == 0,
            r.done() == 0,
            !r.stopping(),
            forall|i: int| 0 <= i < WORKERS_SIZE ==> #[trigger] r.worker(i) == (WorkerState {
                break_counter: 0,
                order: None,
                saving: Seq::empty(),
                toggle: false,
            }),
    {
        let r = Orqestra {
            ring_buffer_core: RingBufferCore::new(),
            store: ExecutableStore::new(),
            execute_core: ExecuteCore::new(),
            registered: Ghost(Multiset::empty()),
            executed: Ghost(Multiset::empty()),
            dropped: Ghost(Multiset::empty()),
            roots: Ghost(Multiset::empty()),
            released: Ghost(Multiset::empty()),
        };
        proof {
            broadcast use vstd::multiset::group_multiset_axioms;
            broadcast use vstd::seq_lib::group_to_multiset_ensures;
            assert forall|i: int| 0 <= i < WORKERS_SIZE implies {
                &&& (#[trigger] r.execute_core.workers@[i]).wf(RING_BUFFER_SIZE)
                &&& r.execute_core.workers@[i].ident() == i
                &&& all_runnable_in(r.execute_core.workers@[i]@.saving.to_multiset(), &r.store)
            } by {
                assert(r.execute_core.worker_seq()[i]@.saving =~= Seq::<ExecutableTask>::empty());
            }
            lemma_empty_contents(r.ring_buffer_core@);
            assert(r.registered@ =~= r.executed@.add(r.dropped@).add(r.ring_buffer_core@.contents()));
            assert forall|k: int| 0 <= k < r.execute_core.workers@.len() implies (#[trigger] r.execute_core.workers@[k])@.saving.len() == 0 by {
                assert(r.execute_core.worker_seq()[k]@.saving =~= Seq::<ExecutableTask>::empty());
            }
            lemma_all_saved_empty(r.execute_core.workers@);
            assert(r.registered@.add(all_saved(r.execute_core.workers@)) =~= r.roots@.add(r.released@));
            assert(r.tasks_registered(None));
            assert(r.wf_but_tasks());
        }
        r
    }

    /// Registers a job; it depends on nothing yet.
    pub fn new_job(&mut self, f: J) -> (r: Job)
        requires
            old(self).wf(),
        ensures
            final(self).wf(),
            r.inner == old(self).store_view().jobs().len(),
            final(self).store_view().tasks() == old(self).store_view().tasks(),
            final(self).store_view().jobs() == old(self).store_view().jobs().push(
                final(self).store_view().jobs()[r.inner as int],
            ),
            final(self).store_view().jobs()[r.inner as int].f == f,
            final(self).store_view().jobs()[r.inner as int].exec_counter == 0,
            final(self).store_view().jobs()[r.inner as int].return_value is None,
            !final(self).store_view().jobs()[r.inner as int].ready,
            final(self).store_view().jobs()[r.inner as int].next_jobs@ == Seq::<usize>::empty(),
            final(self).store_view().jobs()[r.inner as int].dep@ == Seq::<usize>::empty(),
            final(self).ring() == old(self).ring(),
            final(self).same_workers(old(self)),
            final(self).registered_total() == old(self).registered_total(),
            final(self).dropped_total() == old(self).dropped_total(),
            final(self).registered_items() == old(self).registered_items(),
            final(self).dropped_items() == old(self).dropped_items(),
            final(self).root_items() == old(self).root_items(),
            final(self).released_items() == old(self).released_items(),
    {
        let ghost st0 = self.store;
        let r = Job::new(&mut self.store, f);
        proof {
            self.lemma_store_grew(&st0);
            let m = self.ring_buffer_core@.contents();
            assert forall|x: ExecutableTask| #[trigger] m.count(x) > 0 implies x.runnable_in(&self.store) by {
                assert(x.runnable_in(&st0));
            }
        }
        r
    }

    /// Schedules `job` to run after `dep` (see [`Job::after`]).
    pub fn after(&mut self, job: Job, dep: &Job) -> (r: Job)
        requires
            old(self).wf(),
            job.inner < old(self).store_view().jobs().len(),
            dep.inner < old(self).store_view().jobs().len(),
            old(self).store_view().jobs()[job.inner as int].exec_counter < usize::MAX,
        ensures
            final(self).wf(),
            r == job,
            final(self).store_view().tasks() == old(self).store_view().tasks(),
            final(self).store_view().jobs().len() == old(self).store_view().jobs().len(),
            final(self).store_view().counters() == old(self).store_view().counters().update(
                job.inner as int,
                old(self).store_view().counters()[job.inner as int] + 1,
            ),
            final(self).store_view().next_lists() == old(self).store_view().next_lists().update(
                dep.inner as int,
                old(self).store_view().next_lists()[dep.inner as int].push(job.inner),
            ),
            final(self).store_view().jobs()[job.inner as int].dep@ == old(self).store_view().jobs()[job.inner as int].dep@.push(dep.inner),
            final(self).ring() == old(self).ring(),
            final(self).same_workers(old(self)),
            final(self).registered_total() == old(self).registered_total(),
            final(self).dropped_total() == old(self).dropped_total(),
            final(self).registered_items() == old(self).registered_items(),
            final(self).dropped_items() == old(self).dropped_items(),
            final(self).root_items() == old(self).root_items(),
            final(self).released_items() == old(self).released_items(),
    {
        let ghost st0 = self.store;
        let r = job.after(&mut self.store, dep);
        proof {
            self.lemma_store_grew(&st0);
            let m = self.ring_buffer_core@.contents();
            assert forall|x: ExecutableTask| #[trigger] m.count(x) > 0 implies x.runnable_in(&self.store) by {
                assert(x.runnable_in(&st0));
            }
            assert forall|k: int| 0 <= k < st0.jobs().len() implies {
                &&& #[trigger] self.store.jobs()[k].f == st0.jobs()[k].f
                &&& self.store.jobs()[k].return_value == st0.jobs()[k].return_value
                &&& self.store.jobs()[k].ready == st0.jobs()[k].ready
            } by {
                assert(self.store.jobs()[k].f == st0.jobs()[k].f);
            }
            lemma_same_values(&st0, &self.store);
            assert forall|x: ExecutableTask| #[trigger] self.executed@.count(x) > 0 implies finished(&self.store, x) by {
                assert(finished(&st0, x));
            }
        }
        r
    }

    /// One round of worker `id`'s loop (see [`Worker::step`]), with the
    /// scheduler's stop signal.
    pub fn worker_step(&mut self, id: usize) -> (r: WorkerAction)
        where
            T: OrqestraTaskTrait<O>,
            J: OrqestraJobTrait<O>,
        requires
            old(self).wf(),
            id < WORKERS_SIZE,
        ensures
            final(self).wf(),
            stepped(
                old(self).worker(id as int),
                final(self).worker(id as int),
                old(self).ring(),
                final(self).ring(),
                &old(self).store_view(),
                &final(self).store_view(),
                old(self).done(),
                final(self).done(),
                old(self).stopping(),
                RING_BUFFER_SIZE,
                r,
            ),
            final(self).stopping() == old(self).stopping(),
            forall|i: int| 0 <= i < WORKERS_SIZE && i != id ==> #[trigger] final(self).worker(i) == old(self).worker(i),
            final(self).registered_total() == old(self).registered_total()
                + if !old(self).stopping() && old(self).worker(id as int).saving.len() > 0 { 1nat } else { 0nat },
            final(self).executed_total() == old(self).executed_total() + if r is Executed { 1nat } else { 0nat },
            final(self).dropped_total() == old(self).dropped_total(),
            final(self).registered_items() == old(self).registered_items().add(
                if !old(self).stopping() { option_tasks(first_saved(old(self).worker(id as int).saving)) } else { Multiset::empty() },
            ),
            final(self).executed_items() == old(self).executed_items().add(option_tasks(executed_of(r))),
            final(self).dropped_items() == old(self).dropped_items(),
            final(self).root_items() == old(self).root_items(),
            final(self).released_items() == old(self).released_items().add(
                if !old(self).stopping() { released_of(&old(self).store_view(), r).to_multiset() } else { Multiset::empty() },
            ),
    {
        let join_flag = self.execute_core.join_flag;
        let ghost st0 = self.store;
        let ghost workers0 = self.execute_core.workers@;
        let ghost ring0 = self.ring_buffer_core@;
        let ghost done0 = self.execute_core.done_task;
        let ghost saved0 = self.execute_core.workers@[id as int]@.saving.len();
        proof {
            broadcast use vstd::multiset::group_multiset_axioms;
            let w = self.execute_core.workers@[id as int];
            assert(w.wf(RING_BUFFER_SIZE));
            assert(all_runnable_in(w@.saving.to_multiset(), &self.store));
            let m = self.ring_buffer_core@.contents().add(w@.saving.to_multiset());
            assert forall|x: ExecutableTask| #[trigger] m.count(x) > 0 implies x.runnable_in(&self.store) by {
                if self.ring_buffer_core@.contents().count(x) == 0 {
                    assert(w@.saving.to_multiset().count(x) > 0);
                }
            }
            assert forall|i: usize| #[trigger] m.count(ExecutableTask::Task(i)) <= 1 by {
                lemma_only_jobs_no_task(w@.saving, i);
                assert(self.ring_buffer_core@.contents().count(ExecutableTask::Task(i)) <= 1);
            }
        }
        let r = self.execute_core.workers[id].step(
            join_flag,
            &mut self.ring_buffer_core,
            &mut self.store,
            &mut self.execute_core.done_task,
        );
        proof {
            if join_flag {
                assert forall|k: int| 0 <= k < workers0.len() implies #[trigger] self.execute_core.workers@[k]@.saving == workers0[k]@.saving by {
                    assert(self.worker(k) == old(self).worker(k));
                }
                lemma_all_saved_same(workers0, self.execute_core.workers@);
            }
            if !join_flag {
                broadcast use vstd::multiset::group_multiset_axioms;
                let reg0 = self.registered@;
                let exe0 = self.executed@;
                let fs = option_tasks(first_saved(workers0[id as int]@.saving));
                let ex = option_tasks(executed_of(r));
                let c1 = self.ring_buffer_core@.contents();
                assert(c1.add(ex) == ring0.contents().add(fs));
                assert forall|x: ExecutableTask| #[trigger] reg0.add(fs).count(x)
                    == exe0.add(ex).add(self.dropped@).add(c1).count(x) by {
                    assert(c1.add(ex).count(x) == ring0.contents().add(fs).count(x));
                }
                assert(reg0.add(fs) =~= exe0.add(ex).add(self.dropped@).add(c1));
                let rel = released_of(&st0, r).to_multiset();
                let ws0 = workers0;
                let ws1 = self.execute_core.workers@;
                assert forall|k: int| 0 <= k < ws0.len() && k != id implies #[trigger] ws1[k]@.saving == ws0[k]@.saving by {
                    assert(self.worker(k) == old(self).worker(k));
                }
                lemma_all_saved_update(ws0, ws1, id as int);
                assert(ws1[id as int]@.saving.to_multiset().add(fs) == ws0[id as int]@.saving.to_multiset().add(rel));
                assert forall|x: ExecutableTask| #[trigger] reg0.add(fs).add(all_saved(ws1)).count(x)
                    == self.roots@.add(self.released@.add(rel)).count(x) by {
                    assert(all_saved(ws1).add(ws0[id as int]@.saving.to_multiset()).count(x)
                        == all_saved(ws0).add(ws1[id as int]@.saving.to_multiset()).count(x));
                    assert(ws1[id as int]@.saving.to_multiset().add(fs).count(x) == ws0[id as int]@.saving.to_multiset().add(rel).count(x));
                    assert(reg0.add(all_saved(ws0)).count(x) == self.roots@.add(self.released@).count(x));
                }
                assert(reg0.add(fs).add(all_saved(ws1)) =~= self.roots@.add(self.released@.add(rel)));
                self.released = Ghost(self.released@.add(rel));
                if let WorkerAction::Executed(t) = r {
                    assert(ring0.contents().add(fs).count(t) > 0);
                    if ring0.contents().count(t) == 0 {
                        let w = workers0[id as int];
                        assert(w@.saving.len() > 0 && w@.saving[0] == t);
                        assert(w@.saving.to_multiset().count(t) > 0) by {
                            broadcast use vstd::seq_lib::group_to_multiset_ensures;
                            assert(w@.saving.contains(t));
                        }
                    }
                    assert(t.runnable_in(&st0));
                    lemma_ran_finishes(&st0, &self.store, t);
                    assert forall|x: ExecutableTask| #[trigger] exe0.add(ex).count(x) > 0 implies finished(&self.store, x) by {
                        if x != t {
                            assert(exe0.count(x) > 0);
                            assert(finished(&st0, x));
                        }
                    }
                }
                if saved0 > 0 {
                    lemma_next_count_tracks(ring0.in_task, self.registered@.len());
                }
                self.registered = Ghost(self.registered@.add(option_tasks(first_saved(workers0[id as int]@.saving))));
                if r is Executed {
                    lemma_next_count_tracks(done0, self.executed@.len());
                }
                self.executed = Ghost(self.executed@.add(option_tasks(executed_of(r))));
                if r is Executed {
                    let (wp, sp, picked_task) = crate::worker::picked(workers0[id as int]@, ring0, RING_BUFFER_SIZE);
                    assert(picked_task is Some);
                }
            }
        }
        proof {
            broadcast use vstd::multiset::group_multiset_axioms;
            assert(self.store.tasks().len() == st0.tasks().len());
            assert(self.store.jobs().len() == st0.jobs().len());
            let w = self.execute_core.workers@[id as int];
            let m = self.ring_buffer_core@.contents().add(w@.saving.to_multiset());
            assert forall|x: ExecutableTask| #[trigger] self.ring_buffer_core@.contents().count(x) > 0 implies x.runnable_in(&self.store) by {
                assert(m.count(x) > 0);
            }
            assert forall|x: ExecutableTask| #[trigger] w@.saving.to_multiset().count(x) > 0 implies x.runnable_in(&self.store) by {
                assert(m.count(x) > 0);
            }
            assert forall|i: usize| #[trigger] self.ring_buffer_core@.contents().count(ExecutableTask::Task(i)) <= 1 by {
                assert(m.count(ExecutableTask::Task(i)) <= 1);
            }
            assert forall|i: int| 0 <= i < WORKERS_SIZE implies {
                &&& (#[trigger] self.execute_core.workers@[i]).wf(RING_BUFFER_SIZE)
                &&& self.execute_core.workers@[i].ident() == i
                &&& all_runnable_in(self.execute_core.workers@[i]@.saving.to_multiset(), &self.store)
                &&& only_jobs(self.execute_core.workers@[i]@.saving)
            } by {
                if i != id {
                    assert(self.execute_core.workers@[i] == workers0[i]);
                    let si = workers0[i]@.saving;
                    let mi = si.to_multiset();
                    assert forall|x: ExecutableTask| #[trigger] mi.count(x) > 0 implies x.runnable_in(&self.store) by {
                        assert(x.runnable_in(&st0));
                        if let ExecutableTask::Task(k) = x {
                            lemma_only_jobs_no_task(si, k);
                        }
                    }
                }
            }
        }
        r
    }

    /// Whether the thread waiting in `join` may stop waiting: the workers
    /// have run as many executables as were registered, and no released job
    /// waits in a worker to be registered.
    pub open spec fn all_done(&self) -> bool {
        &&& self.done() >= self.ring().in_task
        &&& forall|i: int| 0 <= i < WORKERS_SIZE ==> #[trigger] self.worker(i).saving.len() == 0
    }

    /// One check of the thread waiting in `join`, after `counter` earlier
    /// checks (counted up to `JOIN_YIELD_ROUNDS`): finished once everything
    /// is done (see [`Orqestra::all_done`]); otherwise yield for the first
    /// `JOIN_YIELD_ROUNDS` checks and park after that. Returns the next
    /// counter.
    pub fn join_wait(&self, counter: usize) -> (r: (JoinAction, usize))
        requires
            self.wf(),
        ensures
            self.all_done() ==> r == (JoinAction::Finished, counter),
            !self.all_done() && counter < JOIN_YIELD_ROUNDS ==> r == (JoinAction::Yield, (counter + 1) as usize),
            !self.all_done() && counter >= JOIN_YIELD_ROUNDS ==> r == (JoinAction::Park, counter),
    {
        let mut saved_none = true;
        let mut i: usize = 0;
        while i < self.execute_core.workers.len()
            invariant
                self.wf(),
                i <= WORKERS_SIZE,
                saved_none <==> forall|k: int| 0 <= k < i ==> #[trigger] self.worker(k).saving.len() == 0,
            decreases WORKERS_SIZE - i,
        {
            let saved = self.execute_core.workers[i].saved_count();
            assert(saved == self.worker(i as int).saving.len());
            if saved > 0 {
                saved_none = false;
            }
            proof {
                if saved > 0 {
                    assert(!(self.worker(i as int).saving.len() == 0));
                } else if saved_none {
                    assert forall|k: int| 0 <= k < i + 1 implies #[trigger] self.worker(k).saving.len() == 0 by {
                        if k < i {
                            assert(self.worker(k).saving.len() == 0);
                        }
                    }
                } else {
                    let k = choose|k: int| 0 <= k < i && !(#[trigger] self.worker(k).saving.len() == 0);
                    assert(!(self.worker(k).saving.len() == 0));
                }
            }
            i = i + 1;
        }
        if saved_none && self.execute_core.done_task >= self.ring_buffer_core.in_task() {
            (JoinAction::Finished, counter)
        } else if counter < JOIN_YIELD_ROUNDS {
            (JoinAction::Yield, counter + 1)
        } else {
            (JoinAction::Park, counter)
        }
    }

    /// Tells the workers to stop: their next round reports `Stop`.
    pub fn stop(&mut self)
        requires
            old(self).wf(),
        ensures
            final(self).wf(),
            final(self).stopping(),
            final(self).registered_total() == old(self).registered_total(),
            final(self).executed_total() == old(self).executed_total(),
            final(self).dropped_total() == old(self).dropped_total(),
            final(self).registered_items() == old(self).registered_items(),
            final(self).executed_items() == old(self).executed_items(),
            final(self).dropped_items() == old(self).dropped_items(),
            final(self).root_items() == old(self).root_items(),
            final(self).released_items() == old(self).released_items(),
            final(self).ring() == old(self).ring(),
            final(self).store_view() == old(self).store_view(),
            final(self).done() == old(self).done(),
            forall|i: int| 0 <= i < WORKERS_SIZE ==> #[trigger] final(self).worker(i) == old(self).worker(i),
    {
        self.execute_core.join_flag = true;
    }

    /// Drops what the ring still holds (see [`RingBufferCore::drop_queue`]).
    pub fn drop_queue(&mut self)
        requires
            old(self).wf(),
        ensures
            final(self).wf(),
            final(self).ring() == (RingBufferState {
                slots: Seq::new(RING_BUFFER_SIZE as nat, |i: int| None::<ExecutableTask>),
                registered: 0,
                waiting: Seq::<(usize, ExecutableTask)>::empty(),
                ..old(self).ring()
            }),
            final(self).store_view() == old(self).store_view(),
            final(self).same_workers(old(self)),
            final(self).registered_total() == old(self).registered_total(),
            final(self).dropped_total() == old(self).dropped_total() + old(self).ring().contents().len()
                - final(self).ring().contents().len(),
            final(self).registered_items() == old(self).registered_items(),
            final(self).dropped_items().add(final(self).ring().contents()) == old(self).dropped_items().add(old(self).ring().contents()),
            final(self).root_items() == old(self).root_items(),
            final(self).released_items() == old(self).released_items(),
    {
        let ghost s0 = self.ring_buffer_core@;
        self.ring_buffer_core.drop_queue();
        proof {
            broadcast use vstd::multiset::group_multiset_axioms;
            broadcast use vstd::seq_lib::group_to_multiset_ensures;
            let s1 = self.ring_buffer_core@;
            crate::ring_buffer_core::lemma_slot_tasks_none(s1.slots);
            assert(s1.contents().len() == s1.secondary.len());
            assert(s0.contents().len() == crate::ring_buffer_core::slot_tasks(s0.slots).len()
                + crate::ring_buffer_core::waiting_tasks(s0.waiting).len() + s0.secondary.len());
            let gone = crate::ring_buffer_core::slot_tasks(s0.slots).add(crate::ring_buffer_core::waiting_tasks(s0.waiting));
            assert(s0.contents() =~= gone.add(s1.contents()));
            lemma_drop_some(self.registered@, self.executed@, self.dropped@, s0.contents(), s1.contents(), gone);
            self.dropped = Ghost(self.dropped@.add(gone));
            assert forall|i: usize| #[trigger] s1.contents().count(ExecutableTask::Task(i)) <= 1 by {
                assert(s0.contents().count(ExecutableTask::Task(i)) <= 1);
            }
            assert(s1.waiting.map_values(|e: (usize, ExecutableTask)| e.1) =~= Seq::<ExecutableTask>::empty());
            assert forall|x: ExecutableTask| #[trigger] s1.contents().count(x) > 0 implies x.runnable_in(&self.store) by {
                assert(s0.secondary.to_multiset().count(x) > 0);
                assert(s0.contents().count(x) > 0);
            }
        }
    }

    /// The ring buffer.
    pub fn get_ring_buffer_core(&self) -> (r: &RingBufferCore<RING_BUFFER_SIZE>)
        ensures
            r@ == self.ring(),
    {
        &self.ring_buffer_core
    }

    /// The worker side.
    pub fn get_execute_core(&self) -> (r: &ExecuteCore<WORKERS_SIZE>)
        requires
            self.wf(),
        ensures
            r.done() == self.done(),
            r.stopping() == self.stopping(),
            r.worker_seq().len() == WORKERS_SIZE,
            forall|i: int| 0 <= i < WORKERS_SIZE ==> (#[trigger] r.worker_seq()[i])@ == self.worker(i),
    {
        &self.execute_core
    }

    /// The tasks and jobs.
    pub fn get_store(&self) -> (r: &ExecutableStore<T, J, O>)
        ensures
            *r == self.store_view(),
    {
        &self.store
    }
}

} // verus!

verus! {

impl<T: OrqestraTaskTrait<O>, J: OrqestraJobTrait<O>, O, const RING_BUFFER_SIZE: usize, const WORKERS_SIZE: usize> Orqestra<T, J, O, RING_BUFFER_SIZE, WORKERS_SIZE> {
    /// Workers, their counters and the stop signal stay as they are.
    pub open spec fn same_workers(&self, other: &Self) -> bool {
        &&& self.executed_items() == other.executed_items()
        &&& self.done() == other.done()
        &&& self.stopping() == other.stopping()
        &&& forall|i: int| 0 <= i < WORKERS_SIZE ==> #[trigger] self.worker(i) == other.worker(i)
    }

    proof fn lemma_store_grew(&self, old_store: &ExecutableStore<T, J, O>)
        requires
            forall|i: int| 0 <= i < WORKERS_SIZE ==> all_runnable_in(
                (#[trigger] self.execute_core.workers@[i])@.saving.to_multiset(),
                old_store,
            ),
            all_runnable_in(self.ring_buffer_core@.contents(), old_store),
            store_grew(old_store, &self.store),
        ensures
            forall|i: int| 0 <= i < WORKERS_SIZE ==> all_runnable_in(
                (#[trigger] self.execute_core.workers@[i])@.saving.to_multiset(),
                &self.store,
            ),
            all_runnable_in(self.ring_buffer_core@.contents(), &self.store),
    {
        assert forall|i: int| 0 <= i < WORKERS_SIZE implies all_runnable_in(
            (#[trigger] self.execute_core.workers@[i])@.saving.to_multiset(),
            &self.store,
        ) by {
            lemma_runnable_grew(self.execute_core.workers@[i]@.saving.to_multiset(), old_store, &self.store);
        }
        lemma_runnable_grew(self.ring_buffer_core@.contents(), old_store, &self.store);
    }

    /// A task registered after `old_store` is not in the ring buffer yet.
    proof fn lemma_fresh_task_absent(&self, old_store: &ExecutableStore<T, J, O>, n: usize)
        requires
            n == old_store.tasks().len(),
            all_runnable_in(self.ring_buffer_core@.contents(), old_store),
        ensures
            self.ring_buffer_core@.contents().count(ExecutableTask::Task(n)) == 0,
    {
        if self.ring_buffer_core@.contents().count(ExecutableTask::Task(n)) > 0 {
            assert(ExecutableTask::Task(n).runnable_in(old_store));
        }
    }

    /// Registers `t` in the ring buffer (see [`RingBufferCore::enqueue`]).
    fn submit(&mut self, t: ExecutableTask)
        requires
            old(self).wf_but_tasks(),
            t.runnable_in(&old(self).store),
            t is Job ==> old(self).tasks_registered(None),
            t is Task ==> old(self).tasks_registered(Some(t->Task_0)),
            t is Task ==> old(self).ring_buffer_core@.contents().count(t) == 0,
        ensures
            final(self).wf(),
            final(self).ring_buffer_core@ == old(self).ring_buffer_core@.enqueued(t, RING_BUFFER_SIZE),
            final(self).store == old(self).store,
            final(self).execute_core == old(self).execute_core,
            final(self).registered@ == old(self).registered@.insert(t),
            final(self).executed == old(self).executed,
            final(self).dropped == old(self).dropped,
            final(self).roots@ == old(self).roots@.insert(t),
            final(self).released == old(self).released,
    {
        proof {
            broadcast use vstd::multiset::group_multiset_axioms;
            self.ring_buffer_core.lemma_view_wf();
        }
        let ghost s0 = self.ring_buffer_core@;
        self.ring_buffer_core.enqueue(t);
        proof {
            broadcast use vstd::multiset::group_multiset_axioms;
            lemma_enqueue_keeps_every_executable(s0, t, RING_BUFFER_SIZE);
            let m = self.ring_buffer_core@.contents();
            assert forall|x: ExecutableTask| #[trigger] m.count(x) > 0 implies x.runnable_in(&self.store) by {
                if x != t {
                    assert(s0.contents().count(x) > 0);
                }
            }
            lemma_next_count_tracks(s0.in_task, self.registered@.len());
            assert(m =~= s0.contents().insert(t));
            lemma_register_one(self.registered@, self.executed@, self.dropped@, s0.contents(), m, t);
            let reg0 = self.registered@;
            self.registered = Ghost(self.registered@.insert(t));
            lemma_insert_both(reg0, all_saved(self.execute_core.workers@), self.roots@, self.released@, t);
            self.roots = Ghost(self.roots@.insert(t));
            assert forall|i: usize| #[trigger] self.registered@.count(ExecutableTask::Task(i))
                == if i < self.store.tasks().len() { 1nat } else { 0nat } by {
                assert(reg0.count(ExecutableTask::Task(i)) == if i < self.store.tasks().len() && (t is Task ==> t->Task_0 != i) { 1nat } else { 0nat });
            }
            assert forall|i: usize| #[trigger] m.count(ExecutableTask::Task(i)) <= 1 by {
                assert(s0.contents().count(ExecutableTask::Task(i)) <= 1);
            }
        }
    }

    /// Registers a task and puts it into the ring buffer; when the ring is
    /// full it goes to the secondary list (see [`RingBufferCore::enqueue`]).
    pub fn spawn_task(&mut self, task: T)
        requires
            old(self).wf(),
        ensures
            final(self).wf(),
            final(self).store_view().tasks() == old(self).store_view().tasks().push(
                WaitingTask { f: task, return_value: None, ready: false },
            ),
            final(self).store_view().jobs() == old(self).store_view().jobs(),
            final(self).ring() == old(self).ring().enqueued(
                ExecutableTask::Task(old(self).store_view().tasks().len() as usize),
                RING_BUFFER_SIZE,
            ),
            final(self).same_workers(old(self)),
            final(self).registered_total() == old(self).registered_total() + 1,
            final(self).dropped_total() == old(self).dropped_total(),
            final(self).registered_items() == old(self).registered_items().insert(ExecutableTask::Task(old(self).store_view().tasks().len() as usize)),
            final(self).dropped_items() == old(self).dropped_items(),
            final(self).root_items() == old(self).root_items().insert(ExecutableTask::Task(old(self).store_view().tasks().len() as usize)),
            final(self).released_items() == old(self).released_items(),
    {
        let ghost st0 = self.store;
        let n = self.store.task_count();
        let t = ExecutableTask::new_task(&mut self.store, task);
        proof {
            self.lemma_store_grew(&st0);
            self.lemma_fresh_task_absent(&st0, n);
            lemma_values_task_pushed(&st0, &self.store, task);
            assert forall|x: ExecutableTask| #[trigger] self.executed@.count(x) > 0 implies finished(&self.store, x) by {
                assert(finished(&st0, x));
            }
            assert forall|i: usize| #[trigger] self.registered@.count(ExecutableTask::Task(i))
                == if i < self.store.tasks().len() && Some(n) != Some(i) { 1nat } else { 0nat } by {
                assert(self.registered@.count(ExecutableTask::Task(i)) == if i < st0.tasks().len() { 1nat } else { 0nat });
            }
        }
        self.submit(t);
    }

    /// Registers a task and puts it into the ring buffer only: when the ring
    /// holds `RING_BUFFER_SIZE` executables or more, nothing changes and an
    /// error is returned.
    pub fn try_spawn_task(&mut self, task: T) -> (r: Result<(), &'static str>)
        requires
            old(self).wf(),
        ensures
            final(self).wf(),
            final(self).same_workers(old(self)),
            final(self).registered_total() == old(self).registered_total() + if r is Ok { 1nat } else { 0nat },
            final(self).dropped_total() == old(self).dropped_total(),
            r is Ok ==> final(self).registered_items() == old(self).registered_items().insert(ExecutableTask::Task(old(self).store_view().tasks().len() as usize)),
            r is Err ==> final(self).registered_items() == old(self).registered_items(),
            final(self).dropped_items() == old(self).dropped_items(),
            r is Ok ==> final(self).root_items() == old(self).root_items().insert(ExecutableTask::Task(old(self).store_view().tasks().len() as usize)),
            r is Err ==> final(self).root_items() == old(self).root_items(),
            final(self).released_items() == old(self).released_items(),
            r is Err <==> old(self).ring().registered >= RING_BUFFER_SIZE,
            r is Err ==> final(self).ring() == old(self).ring() && final(self).store_view() == old(self).store_view()
                && r->Err_0@ == "Cannot insert task because ring buffer is full"@,
            r is Ok ==> final(self).store_view().tasks() == old(self).store_view().tasks().push(
                WaitingTask { f: task, return_value: None, ready: false },
            ) && final(self).store_view().jobs() == old(self).store_view().jobs()
                && final(self).ring() == old(self).ring().put_in_ring(
                ExecutableTask::Task(old(self).store_view().tasks().len() as usize),
                RING_BUFFER_SIZE,
            ),
    {
        if self.ring_buffer_core.registered_count() >= RING_BUFFER_SIZE {
            return Err("Cannot insert task because ring buffer is full");
        }
        self.spawn_task(task);
        Ok(())
    }

    /// Submits the first job of a job graph; the jobs scheduled after it
    /// are released by the workers as their dependencies finish.
    pub fn job_exec(&mut self, job: Job)
        requires
            old(self).wf(),
            job.inner < old(self).store_view().jobs().len(),
        ensures
            final(self).wf(),
            final(self).store_view() == old(self).store_view(),
            final(self).ring() == old(self).ring().enqueued(ExecutableTask::Job(job.inner), RING_BUFFER_SIZE),
            final(self).same_workers(old(self)),
            final(self).registered_total() == old(self).registered_total() + 1,
            final(self).dropped_total() == old(self).dropped_total(),
            final(self).registered_items() == old(self).registered_items().insert(ExecutableTask::Job(job.inner)),
            final(self).dropped_items() == old(self).dropped_items(),
            final(self).root_items() == old(self).root_items().insert(ExecutableTask::Job(job.inner)),
            final(self).released_items() == old(self).released_items(),
    {
        self.submit(ExecutableTask::new_job(job));
    }

    /// Registers a task and puts it directly into the secondary list.
    pub fn secondary_spawn(&mut self, task: T)
        requires
            old(self).wf(),
        ensures
            final(self).wf(),
            final(self).store_view().tasks() == old(self).store_view().tasks().push(
                WaitingTask { f: task, return_value: None, ready: false },
            ),
            final(self).store_view().jobs() == old(self).store_view().jobs(),
            final(self).ring() == old(self).ring().spill(
                ExecutableTask::Task(old(self).store_view().tasks().len() as usize),
            ),
            final(self).same_workers(old(self)),
            final(self).registered_total() == old(self).registered_total() + 1,
            final(self).dropped_total() == old(self).dropped_total(),
            final(self).registered_items() == old(self).registered_items().insert(ExecutableTask::Task(old(self).store_view().tasks().len() as usize)),
            final(self).dropped_items() == old(self).dropped_items(),
            final(self).root_items() == old(self).root_items().insert(ExecutableTask::Task(old(self).store_view().tasks().len() as usize)),
            final(self).released_items() == old(self).released_items(),
    {
        let ghost st0 = self.store;
        let n = self.store.task_count();
        let t = ExecutableTask::new_task(&mut self.store, task);
        proof {
            self.lemma_store_grew(&st0);
            self.lemma_fresh_task_absent(&st0, n);
            self.ring_buffer_core.lemma_view_wf();
        }
        let ghost s0 = self.ring_buffer_core@;
        self.ring_buffer_core.secondary_push(t);
        proof {
            broadcast use vstd::multiset::group_multiset_axioms;
            assert(s0.spill(t).contents() =~= s0.contents().insert(t)) by {
                broadcast use vstd::seq_lib::group_to_multiset_ensures;
            }
            lemma_next_count_tracks(s0.in_task, self.registered@.len());
            assert(self.ring_buffer_core@.contents() =~= s0.contents().insert(t));
            lemma_register_one(self.registered@, self.executed@, self.dropped@, s0.contents(), self.ring_buffer_core@.contents(), t);
            lemma_values_task_pushed(&st0, &self.store, task);
            let reg0 = self.registered@;
            self.registered = Ghost(self.registered@.insert(t));
            lemma_insert_both(reg0, all_saved(self.execute_core.workers@), self.roots@, self.released@, t);
            self.roots = Ghost(self.roots@.insert(t));
            assert forall|i: usize| #[trigger] self.registered@.count(ExecutableTask::Task(i))
                == if i < self.store.tasks().len() { 1nat } else { 0nat } by {
                assert(reg0.count(ExecutableTask::Task(i)) == if i < st0.tasks().len() { 1nat } else { 0nat });
            }
            assert forall|x: ExecutableTask| #[trigger] self.executed@.count(x) > 0 implies finished(&self.store, x) by {
                assert(finished(&st0, x));
            }
            let m = self.ring_buffer_core@.contents();
            assert forall|x: ExecutableTask| #[trigger] m.count(x) > 0 implies x.runnable_in(&self.store) by {
                if x != t {
                    assert(s0.contents().count(x) > 0);
                }
            }
            assert forall|i: usize| #[trigger] m.count(ExecutableTask::Task(i)) <= 1 by {
                assert(s0.contents().count(ExecutableTask::Task(i)) <= 1);
            }
        }
    }
}

/// Every executable registered in the ring buffer has run, was dropped, or
/// is still there; the counters of registered and run executables are these
/// totals, wrapped to `u64`.
pub proof fn lemma_accounting<T: OrqestraTaskTrait<O>, J: OrqestraJobTrait<O>, O, const RING_BUFFER_SIZE: usize, const WORKERS_SIZE: usize>(
    o: &Orqestra<T, J, O, RING_BUFFER_SIZE, WORKERS_SIZE>,
)
    requires
        o.wf(),
    ensures
        o.registered_total() == o.executed_total() + o.dropped_total() + o.ring().contents().len(),
        o.ring().in_task as nat == o.registered_total() % counter_range(),
        o.done() as nat == o.executed_total() % counter_range(),
{
}

/// Once `join` may stop waiting, every registered task and job has run:
/// nothing is left in the ring buffer, in the secondary list, or waiting in
/// a worker, and nothing was dropped (as long as fewer than 2^64 executables
/// were registered, so that the counters did not wrap).
pub proof fn lemma_join_finishes_after_everything_ran<T: OrqestraTaskTrait<O>, J: OrqestraJobTrait<O>, O, const RING_BUFFER_SIZE: usize, const WORKERS_SIZE: usize>(
    o: &Orqestra<T, J, O, RING_BUFFER_SIZE, WORKERS_SIZE>,
)
    requires
        o.wf(),
        o.all_done(),
        o.registered_total() < counter_range(),
    ensures
        o.ring().contents().len() == 0,
        o.executed_total() == o.registered_total(),
        o.dropped_total() == 0,
        forall|i: int| 0 <= i < WORKERS_SIZE ==> #[trigger] o.worker(i).saving.len() == 0,
{
    lemma_accounting(o);
    vstd::arithmetic::div_mod::lemma_small_mod(o.registered_total(), counter_range());
    assert(o.executed_total() <= o.registered_total());
    vstd::arithmetic::div_mod::lemma_small_mod(o.executed_total(), counter_range());
}

/// `new` holds every task and job of `old`, and maybe more.
pub open spec fn store_grew<T, J, O>(old: &ExecutableStore<T, J, O>, new: &ExecutableStore<T, J, O>) -> bool {
    &&& new.tasks().len() >= old.tasks().len()
    &&& forall|k: int| 0 <= k < old.tasks().len() ==> #[trigger] new.tasks()[k] == old.tasks()[k]
    &&& new.jobs().len() >= old.jobs().len()
}

/// Handles that named tasks or jobs of a store still do once it grew.
pub proof fn lemma_runnable_grew<T, J, O>(
    m: vstd::multiset::Multiset<ExecutableTask>,
    old: &ExecutableStore<T, J, O>,
    new: &ExecutableStore<T, J, O>,
)
    requires
        all_runnable_in(m, old),
        store_grew(old, new),
    ensures
        all_runnable_in(m, new),
{
    assert forall|t: ExecutableTask| #[trigger] m.count(t) > 0 implies t.runnable_in(new) by {
        assert(t.runnable_in(old));
        if let ExecutableTask::Task(i) = t {
            assert(new.tasks()[i as int] == old.tasks()[i as int]);
        }
    }
}

/// A ring buffer state with no executable anywhere has empty contents.
proof fn lemma_empty_contents(s: RingBufferState)
    requires
        forall|i: int| 0 <= i < s.slots.len() ==> #[trigger] s.slots[i] is None,
        s.waiting.len() == 0,
        s.secondary.len() == 0,
    ensures
        s.contents() =~= vstd::multiset::Multiset::empty(),
{
    broadcast use vstd::multiset::group_multiset_axioms;
    broadcast use vstd::seq_lib::group_to_multiset_ensures;
    crate::ring_buffer_core::lemma_slot_tasks_none(s.slots);
    assert(s.waiting.map_values(|e: (usize, ExecutableTask)| e.1) =~= Seq::<ExecutableTask>::empty());
}

} // verus!

verus! {

/// A job whose dependencies are no longer pending (its counter is zero)
/// finds every job it was scheduled `after` finished, with its value stored.
pub proof fn lemma_job_waits_for_dependencies<T: OrqestraTaskTrait<O>, J: OrqestraJobTrait<O>, O, const RING_BUFFER_SIZE: usize, const WORKERS_SIZE: usize>(
    o: &Orqestra<T, J, O, RING_BUFFER_SIZE, WORKERS_SIZE>,
    j: int,
)
    requires
        o.wf(),
        0 <= j < o.store_view().jobs().len(),
        o.store_view().counters()[j] == 0,
    ensures
        o.store_view().deps_settled(),
        forall|k: int| 0 <= k < o.store_view().jobs()[j].dep@.len() ==> {
            let d = #[trigger] o.store_view().jobs()[j].dep@[k] as int;
            &&& o.store_view().jobs()[d].ready
            &&& o.store_view().jobs()[d].return_value is Some
        },
{
    o.store_view().lemma_dependencies_done_when_released(j);
}

} // verus!

verus! {

/// A store whose tasks are the same and whose jobs keep their user values,
/// stored values and finished flags has the same tasks and jobs finished,
/// with the same values.
proof fn lemma_same_values<T: OrqestraTaskTrait<O>, J: OrqestraJobTrait<O>, O>(
    before: &ExecutableStore<T, J, O>,
    after: &ExecutableStore<T, J, O>,
)
    requires
        before.values_from_execute(),
        after.tasks() == before.tasks(),
        after.jobs().len() == before.jobs().len(),
        forall|k: int| 0 <= k < before.jobs().len() ==> {
            &&& #[trigger] after.jobs()[k].f == before.jobs()[k].f
            &&& after.jobs()[k].return_value == before.jobs()[k].return_value
            &&& after.jobs()[k].ready == before.jobs()[k].ready
        },
    ensures
        after.values_from_execute(),
        forall|x: ExecutableTask| #[trigger] finished(before, x) ==> finished(after, x),
{
    assert forall|x: int| 0 <= x < after.jobs().len() && #[trigger] after.jobs()[x].ready implies {
        &&& after.jobs()[x].return_value is Some
        &&& exists|d: JobDep<'_, O>|
            #![trigger call_ensures(<J as OrqestraJobTrait<O>>::execute, (&after.jobs()[x].f, d), after.jobs()[x].return_value->Some_0)]
            call_ensures(
                <J as OrqestraJobTrait<O>>::execute,
                (&after.jobs()[x].f, d),
                after.jobs()[x].return_value->Some_0,
            )
    } by {
        assert(after.jobs()[x].f == before.jobs()[x].f);
        assert(before.jobs()[x].ready);
        let d = choose|d: JobDep<'_, O>|
            #![trigger call_ensures(<J as OrqestraJobTrait<O>>::execute, (&before.jobs()[x].f, d), before.jobs()[x].return_value->Some_0)]
            call_ensures(
                <J as OrqestraJobTrait<O>>::execute,
                (&before.jobs()[x].f, d),
                before.jobs()[x].return_value->Some_0,
            );
        assert(call_ensures(
            <J as OrqestraJobTrait<O>>::execute,
            (&after.jobs()[x].f, d),
            after.jobs()[x].return_value->Some_0,
        ));
    }
    assert forall|x: ExecutableTask| #[trigger] finished(before, x) implies finished(after, x) by {
        if let ExecutableTask::Job(k) = x {
            assert(after.jobs()[k as int].f == before.jobs()[k as int].f);
            assert(after.jobs()[k as int].ready == before.jobs()[k as int].ready);
        }
    }
}

} // verus!

verus! {

/// Registering `t` while it enters the ring buffer keeps every registered
/// executable run, dropped or in the ring buffer.
proof fn lemma_register_one(
    reg: Multiset<ExecutableTask>,
    exe: Multiset<ExecutableTask>,
    dropped: Multiset<ExecutableTask>,
    c0: Multiset<ExecutableTask>,
    c1: Multiset<ExecutableTask>,
    t: ExecutableTask,
)
    requires
        reg == exe.add(dropped).add(c0),
        c1 == c0.insert(t),
    ensures
        reg.insert(t) == exe.add(dropped).add(c1),
{
    broadcast use vstd::multiset::group_multiset_axioms;
    assert(reg.insert(t) =~= exe.add(dropped).add(c1));
}

/// Dropping `gone` from the ring buffer keeps every registered executable
/// run, dropped or in the ring buffer.
proof fn lemma_drop_some(
    reg: Multiset<ExecutableTask>,
    exe: Multiset<ExecutableTask>,
    dropped: Multiset<ExecutableTask>,
    c0: Multiset<ExecutableTask>,
    c1: Multiset<ExecutableTask>,
    gone: Multiset<ExecutableTask>,
)
    requires
        reg == exe.add(dropped).add(c0),
        c0 == gone.add(c1),
    ensures
        reg == exe.add(dropped.add(gone)).add(c1),
{
    broadcast use vstd::multiset::group_multiset_axioms;
    assert(reg =~= exe.add(dropped.add(gone)).add(c1));
}

/// A store that gained one task that has not run keeps every finished task
/// and job finished, with the same values.
proof fn lemma_values_task_pushed<T: OrqestraTaskTrait<O>, J: OrqestraJobTrait<O>, O>(
    before: &ExecutableStore<T, J, O>,
    after: &ExecutableStore<T, J, O>,
    task: T,
)
    requires
        before.values_from_execute(),
        after.tasks() == before.tasks().push(WaitingTask { f: task, return_value: None, ready: false }),
        after.jobs() == before.jobs(),
    ensures
        after.values_from_execute(),
        forall|x: ExecutableTask| #[trigger] finished(before, x) ==> finished(after, x),
{
    assert forall|i: int| 0 <= i < after.tasks().len() && #[trigger] after.tasks()[i].ready implies {
        &&& after.tasks()[i].return_value is Some
        &&& call_ensures(
            <T as OrqestraTaskTrait<O>>::execute,
            (&after.tasks()[i].f,),
            after.tasks()[i].return_value->Some_0,
        )
    } by {
        assert(i < before.tasks().len());
        assert(after.tasks()[i] == before.tasks()[i]);
    }
    assert forall|x: ExecutableTask| #[trigger] finished(before, x) implies finished(after, x) by {
        if let ExecutableTask::Task(k) = x {
            assert(after.tasks()[k as int] == before.tasks()[k as int]);
        }
    }
}

} // verus!

verus! {

/// Once `join` may stop waiting, every registered executable has run as
/// many times as it was registered and nothing was dropped or is left
/// saved in a worker: the runs are exactly the spawned tasks, the jobs
/// submitted with `job_exec` and the jobs the workers released, once per
/// spawn, submission or release. Each spawned task ran exactly once and
/// holds a value its `execute` returned, and each job that was submitted or
/// released has run and holds a value its `execute` returned (as long as
/// fewer than 2^64 executables were registered, so that the counters did
/// not wrap).
pub proof fn lemma_join_runs_everything<T: OrqestraTaskTrait<O>, J: OrqestraJobTrait<O>, O, const RING_BUFFER_SIZE: usize, const WORKERS_SIZE: usize>(
    o: &Orqestra<T, J, O, RING_BUFFER_SIZE, WORKERS_SIZE>,
)
    requires
        o.wf(),
        o.all_done(),
        o.registered_total() < counter_range(),
    ensures
        o.executed_items() == o.registered_items(),
        o.dropped_items() == Multiset::<ExecutableTask>::empty(),
        o.saved_items() == Multiset::<ExecutableTask>::empty(),
        o.executed_items() == o.root_items().add(o.released_items()),
        forall|i: usize| (i as int) < o.store_view().tasks().len() ==> {
            &&& #[trigger] o.executed_items().count(ExecutableTask::Task(i)) == 1
            &&& o.store_view().tasks()[i as int].ready
            &&& o.store_view().tasks()[i as int].return_value is Some
            &&& call_ensures(
                <T as OrqestraTaskTrait<O>>::execute,
                (&o.store_view().tasks()[i as int].f,),
                o.store_view().tasks()[i as int].return_value->Some_0,
            )
        },
        forall|j: usize| #[trigger] o.registered_items().count(ExecutableTask::Job(j)) > 0 ==> {
            &&& (j as int) < o.store_view().jobs().len()
            &&& o.store_view().jobs()[j as int].ready
            &&& o.store_view().jobs()[j as int].return_value is Some
            &&& exists|d: JobDep<'_, O>|
                #![trigger call_ensures(<J as OrqestraJobTrait<O>>::execute, (&o.store_view().jobs()[j as int].f, d), o.store_view().jobs()[j as int].return_value->Some_0)]
                call_ensures(
                    <J as OrqestraJobTrait<O>>::execute,
                    (&o.store_view().jobs()[j as int].f, d),
                    o.store_view().jobs()[j as int].return_value->Some_0,
                )
        },
{
    broadcast use vstd::multiset::group_multiset_axioms;
    lemma_join_finishes_after_everything_ran(o);
    vstd::multiset::lemma_multiset_empty_len(o.ring().contents());
    vstd::multiset::lemma_multiset_empty_len(o.dropped_items());
    assert(o.executed_items() =~= o.registered_items());
    assert forall|k: int| 0 <= k < o.execute_core.workers@.len() implies (#[trigger] o.execute_core.workers@[k])@.saving.len() == 0 by {
        assert(o.worker(k).saving.len() == 0);
    }
    lemma_all_saved_empty(o.execute_core.workers@);
    assert(o.registered_items().add(o.saved_items()) == o.root_items().add(o.released_items()));
    assert(o.executed_items() =~= o.root_items().add(o.released_items()));
    assert forall|i: usize| (i as int) < o.store_view().tasks().len() implies {
        &&& #[trigger] o.executed_items().count(ExecutableTask::Task(i)) == 1
        &&& o.store_view().tasks()[i as int].ready
        &&& o.store_view().tasks()[i as int].return_value is Some
        &&& call_ensures(
            <T as OrqestraTaskTrait<O>>::execute,
            (&o.store_view().tasks()[i as int].f,),
            o.store_view().tasks()[i as int].return_value->Some_0,
        )
    } by {
        assert(o.registered_items().count(ExecutableTask::Task(i)) == 1);
        assert(finished(&o.store_view(), ExecutableTask::Task(i)));
    }
    assert forall|j: usize| #[trigger] o.registered_items().count(ExecutableTask::Job(j)) > 0 implies {
        &&& (j as int) < o.store_view().jobs().len()
        &&& o.store_view().jobs()[j as int].ready
        &&& o.store_view().jobs()[j as int].return_value is Some
        &&& exists|d: JobDep<'_, O>|
            #![trigger call_ensures(<J as OrqestraJobTrait<O>>::execute, (&o.store_view().jobs()[j as int].f, d), o.store_view().jobs()[j as int].return_value->Some_0)]
            call_ensures(
                <J as OrqestraJobTrait<O>>::execute,
                (&o.store_view().jobs()[j as int].f, d),
                o.store_view().jobs()[j as int].return_value->Some_0,
            )
    } by {
        assert(o.executed_items().count(ExecutableTask::Job(j)) > 0);
        assert(finished(&o.store_view(), ExecutableTask::Job(j)));
    }
}

} // verus!

verus! {

/// The jobs saved in the workers `ws`, together.
pub open spec fn all_saved(ws: Seq<Worker>) -> Multiset<ExecutableTask>
    decreases ws.len(),
{
    if ws.len() == 0 {
        Multiset::empty()
    } else {
        all_saved(ws.drop_last()).add(ws.last()@.saving.to_multiset())
    }
}

/// Changing what worker `id` saves changes what all workers save by as much.
proof fn lemma_all_saved_update(ws: Seq<Worker>, ws2: Seq<Worker>, id: int)
    requires
        ws.len() == ws2.len(),
        0 <= id < ws.len(),
        forall|k: int| 0 <= k < ws.len() && k != id ==> #[trigger] ws2[k]@.saving == ws[k]@.saving,
    ensures
        all_saved(ws2).add(ws[id]@.saving.to_multiset()) == all_saved(ws).add(ws2[id]@.saving.to_multiset()),
    decreases ws.len(),
{
    broadcast use vstd::multiset::group_multiset_axioms;
    let n = ws.len() - 1;
    assert(all_saved(ws2) == all_saved(ws2.drop_last()).add(ws2.last()@.saving.to_multiset()));
    assert(all_saved(ws) == all_saved(ws.drop_last()).add(ws.last()@.saving.to_multiset()));
    if id < n {
        lemma_all_saved_update(ws.drop_last(), ws2.drop_last(), id);
        assert(ws.last() == ws[n]);
        assert(ws2.last() == ws2[n]);
        assert(ws2[n]@.saving == ws[n]@.saving);
        let d2 = all_saved(ws2.drop_last());
        let d1 = all_saved(ws.drop_last());
        let l = ws.last()@.saving.to_multiset();
        assert(ws2.last()@.saving.to_multiset() == l);
        assert(d2.add(ws[id]@.saving.to_multiset()) == d1.add(ws2[id]@.saving.to_multiset()));
        assert(ws.drop_last()[id] == ws[id]);
        assert(ws2.drop_last()[id] == ws2[id]);
        let x1 = ws[id]@.saving.to_multiset();
        let y1 = ws2[id]@.saving.to_multiset();
        assert forall|x: ExecutableTask| #[trigger] all_saved(ws2).add(x1).count(x) == all_saved(ws).add(y1).count(x) by {
            assert(d2.add(x1).count(x) == d1.add(y1).count(x));
        }
        assert(all_saved(ws2).add(x1) =~= all_saved(ws).add(y1));
    } else {
        lemma_all_saved_same(ws.drop_last(), ws2.drop_last());
        assert(all_saved(ws2).add(ws[id]@.saving.to_multiset()) =~= all_saved(ws).add(ws2[id]@.saving.to_multiset()));
    }
}

/// Workers that save the same jobs save the same jobs together.
proof fn lemma_all_saved_same(ws: Seq<Worker>, ws2: Seq<Worker>)
    requires
        ws.len() == ws2.len(),
        forall|k: int| 0 <= k < ws.len() ==> #[trigger] ws2[k]@.saving == ws[k]@.saving,
    ensures
        all_saved(ws2) == all_saved(ws),
    decreases ws.len(),
{
    if ws.len() > 0 {
        lemma_all_saved_same(ws.drop_last(), ws2.drop_last());
        assert(ws2.last()@.saving == ws.last()@.saving);
    }
}

/// Workers that save nothing save nothing together.
proof fn lemma_all_saved_empty(ws: Seq<Worker>)
    requires
        forall|k: int| 0 <= k < ws.len() ==> (#[trigger] ws[k])@.saving.len() == 0,
    ensures
        all_saved(ws) == Multiset::<ExecutableTask>::empty(),
    decreases ws.len(),
{
    broadcast use vstd::multiset::group_multiset_axioms;
    if ws.len() > 0 {
        lemma_all_saved_empty(ws.drop_last());
        assert(ws[ws.len() - 1]@.saving.len() == 0);
        assert(ws.last()@.saving =~= Seq::<ExecutableTask>::empty());
        assert(ws.last()@.saving.to_multiset() =~= Multiset::<ExecutableTask>::empty()) by {
            broadcast use vstd::seq_lib::group_to_multiset_ensures;
        }
        assert(all_saved(ws) =~= Multiset::<ExecutableTask>::empty());
    }
}

} // verus!

verus! {

/// Inserting `t` on both sides keeps two sums equal.
proof fn lemma_insert_both(
    a: Multiset<ExecutableTask>,
    b: Multiset<ExecutableTask>,
    c: Multiset<ExecutableTask>,
    d: Multiset<ExecutableTask>,
    t: ExecutableTask,
)
    requires
        a.add(b) == c.add(d),
    ensures
        a.insert(t).add(b) == c.insert(t).add(d),
{
    broadcast use vstd::multiset::group_multiset_axioms;
    assert forall|x: ExecutableTask| #[trigger] a.insert(t).add(b).count(x) == c.insert(t).add(d).count(x) by {
        assert(a.add(b).count(x) == c.add(d).count(x));
        assert(a.insert(t).count(x) == a.count(x) + Multiset::singleton(t).count(x));
        assert(c.insert(t).count(x) == c.count(x) + Multiset::singleton(t).count(x));
        assert(a.insert(t).add(b).count(x) == a.insert(t).count(x) + b.count(x));
        assert(c.insert(t).add(d).count(x) == c.insert(t).count(x) + d.count(x));
        assert(a.add(b).count(x) == a.count(x) + b.count(x));
        assert(c.add(d).count(x) == c.count(x) + d.count(x));
    }
    assert(a.insert(t).add(b) =~= c.insert(t).add(d));
}

} // verus!
