use vstd::prelude::*;
use std::collections::VecDeque;
use crate::executable_task::ExecutableTask;
use crate::job::{JobDep, OrqestraJobTrait};
use vstd::multiset::Multiset;
use crate::graph::{lemma_released_from_list, occurrences, released};
use crate::ring_buffer_core::{
    DequeueStatus, RingBufferCore, RingBufferState, lemma_secondary_pop_removes_only_taken,
    lemma_swap_keeps_every_executable, lemma_take_removes_only_taken, next_count, option_tasks,
    slot_index,
};
use crate::store::{ExecutableStore, finished, job_handles, same_data};
use crate::task::OrqestraTaskTrait;

verus! {

/// How many idle rounds a worker spends yielding before it parks.
pub const IDLE_YIELD_ROUNDS: usize = 500;

/// What a worker round did, or what the caller has to do next.
#[derive(Clone, Copy, Debug, PartialEq, Eq, Structural)]
pub enum WorkerAction {
    /// The stop signal was set: the worker leaves its loop.
    Stop,
    /// The worker ran this executable.
    Executed(ExecutableTask),
    /// Nothing to run: the caller yields the thread, then runs another round.
    Yield,
    /// Nothing to run for a long time: the caller parks the thread for a
    /// short while, then runs another round.
    Park,
}

/// The abstract state of a worker.
pub struct WorkerState {
    /// Consecutive idle rounds, up to `IDLE_YIELD_ROUNDS`.
    pub break_counter: usize,
    /// A slot index reserved by an earlier take that found the slot empty.
    pub order: Option<usize>,
    /// Released jobs waiting to go back into the ring, oldest first.
    pub saving: Seq<ExecutableTask>,
    /// Set after an idle round: the next round looks at the secondary list.
    pub toggle: bool,
}

/// What a worker round picks to run, and the worker and ring buffer states
/// after picking.
///
/// In order: the oldest released job waiting in the worker goes back into the
/// ring (`enqueue_or_swap`), and whatever it displaces is run now. After an
/// idle round, and when nothing was displaced, the oldest executable of the
/// secondary list is taken. Otherwise a slot reserved earlier is checked
/// (when nothing was displaced), and the reservation ends once the slot gave
/// an executable; or the displaced executable is run; or a new slot is taken
/// from the tail, and a take that finds its slot empty reserves it.
pub open spec fn picked(w: WorkerState, s: RingBufferState, n: usize) -> (WorkerState, RingBufferState, Option<ExecutableTask>) {
    let displaced = if w.saving.len() > 0 { s.slots[slot_index(s.head, n)] } else { None };
    let s_a = if w.saving.len() > 0 { s.swapped(w.saving[0], n) } else { s };
    let saving = if w.saving.len() > 0 { w.saving.drop_first() } else { w.saving };
    let look_secondary = w.toggle && displaced is None;
    let s_b = if look_secondary { s_a.secondary_popped().0 } else { s_a };
    let secondary = if look_secondary { s_a.secondary_popped().1 } else { None };
    let w_b = WorkerState { saving: saving, ..w };
    if secondary is Some {
        (w_b, s_b, secondary)
    } else if w.order is Some && displaced is None {
        let taken = s_b.taken_at(w.order->Some_0 as int);
        match taken.1 {
            DequeueStatus::Taken(t) => (WorkerState { order: None, ..w_b }, taken.0, Some(t)),
            DequeueStatus::Order(_) => (w_b, taken.0, None),
        }
    } else if displaced is Some {
        (w_b, s_b, displaced)
    } else {
        let taken = s_b.dequeued(n);
        match taken.1 {
            DequeueStatus::Taken(t) => (w_b, taken.0, Some(t)),
            DequeueStatus::Order(i) => (WorkerState { order: Some(i), ..w_b }, taken.0, None),
        }
    }
}

/// A worker: picks executables from a ring buffer and runs them.
pub struct Worker {
    id: usize,
    break_counter: usize,
    order: Option<usize>,
    saving_jobs: VecDeque<ExecutableTask>,
    toggle: bool,
}

impl View for Worker {
    type V = WorkerState;

    closed spec fn view(&self) -> WorkerState {
        WorkerState {
            break_counter: self.break_counter,
            order: self.order,
            saving: self.saving_jobs@,
            toggle: self.toggle,
        }
    }
}

impl Worker {
    /// A reserved slot index is a slot of a ring of `n` slots, and the idle
    /// counter does not pass its bound.
    pub open spec fn wf(&self, n: usize) -> bool {
        &&& (self@.order matches Some(i) ==> i < n)
        &&& self@.break_counter <= IDLE_YIELD_ROUNDS
    }

    /// The worker's identifier.
    pub closed spec fn ident(&self) -> usize {
        self.id
    }

    /// A fresh worker: nothing reserved, nothing saved, not idle.
    pub fn new(id: usize) -> (r: Worker)
        ensures
            r.ident() == id,
            r@ == (WorkerState { break_counter: 0, order: None, saving: Seq::empty(), toggle: false }),
    {
        Worker { id, break_counter: 0, order: None, saving_jobs: VecDeque::with_capacity(32), toggle: false }
    }

    /// The number of released jobs waiting in the worker.
    pub fn saved_count(&self) -> (r: usize)
        ensures
            r == self@.saving.len(),
    {
        self.saving_jobs.len()
    }

    /// The worker's identifier.
    pub fn id(&self) -> (r: usize)
        ensures
            r == self.ident(),
    {
        self.id
    }

    /// Picks what to run this round (see [`picked`]). Nothing is lost or
    /// duplicated: the ring buffer and the saved jobs afterwards, plus the
    /// picked executable, hold exactly what they held before.
    pub fn pick<const N: usize>(&mut self, ring: &mut RingBufferCore<N>) -> (r: Option<ExecutableTask>)
        requires
            old(ring).wf(),
            old(self).wf(N),
            N > 0,
        ensures
            final(ring).wf(),
            final(self).wf(N),
            final(self).ident() == old(self).ident(),
            (final(self)@, final(ring)@, r) == picked(old(self)@, old(ring)@, N),
            final(ring)@.contents().add(final(self)@.saving.to_multiset()).add(option_tasks(r))
                =~= old(ring)@.contents().add(old(self)@.saving.to_multiset()),
    {
        broadcast use vstd::multiset::group_multiset_axioms;
        broadcast use vstd::seq_lib::group_to_multiset_ensures;
        let ghost s0 = ring@;
        let ghost w0 = self@;
        proof {
            ring.lemma_view_wf();
        }
        let saving_job = match self.saving_jobs.pop_front() {
            Some(save) => {
                proof {
                    lemma_swap_keeps_every_executable(s0, save, N);
                    assert(w0.saving.drop_first() =~= w0.saving.remove(0));
                    assert(w0.saving.to_multiset() =~= w0.saving.drop_first().to_multiset().insert(save));
                }
                ring.enqueue_or_swap(save)
            },
            None => None,
        };
        let ghost s_a = ring@;
        proof {
            ring.lemma_view_wf();
            if w0.saving.len() > 0 {
                let save = w0.saving[0];
                assert forall|x: ExecutableTask| #[trigger] s_a.contents().add(self@.saving.to_multiset()).add(
                    option_tasks(saving_job),
                ).count(x) == s0.contents().add(w0.saving.to_multiset()).count(x) by {
                    assert(s_a.contents().add(option_tasks(saving_job)).count(x) == s0.contents().insert(save).count(x));
                    assert(w0.saving.to_multiset().count(x) == self@.saving.to_multiset().insert(save).count(x));
                }
            }
            assert(s_a.contents().add(self@.saving.to_multiset()).add(option_tasks(saving_job))
                =~= s0.contents().add(w0.saving.to_multiset()));
        }
        let secondary = if self.toggle && saving_job.is_none() {
            proof {
                if s_a.secondary.len() > 0 {
                    lemma_secondary_pop_removes_only_taken(s_a);
                }
            }
            ring.secondary_pop()
        } else {
            None
        };
        let ghost s_b = ring@;
        proof {
            ring.lemma_view_wf();
            assert(s_b.contents().add(option_tasks(secondary)) =~= s_a.contents());
        }
        if secondary.is_some() {
            return secondary;
        }
        if saving_job.is_none() {
            if let Some(idx) = self.order {
                proof {
                    if s_b.slots[idx as int] is Some {
                        lemma_take_removes_only_taken(s_b, N, idx as int);
                    }
                }
                let r = match ring.dequeue_via_order(idx) {
                    DequeueStatus::Taken(t) => {
                        self.order = None;
                        Some(t)
                    },
                    DequeueStatus::Order(_) => None,
                };
                return r;
            }
        }
        if saving_job.is_some() {
            return saving_job;
        }
        proof {
            let idx = slot_index(s_b.tail, N);
            let s_t = RingBufferState { tail: next_count(s_b.tail), ..s_b };
            assert(idx < N) by {
                let c = s_b.tail as usize;
                let m = (N - 1) as usize;
                assert(c & m <= m) by (bit_vector);
            }
            if s_b.slots[idx] is Some {
                lemma_take_removes_only_taken(s_t, N, idx);
            }
        }
        match ring.dequeue() {
            DequeueStatus::Taken(t) => Some(t),
            DequeueStatus::Order(idx) => {
                self.order = Some(idx);
                None
            },
        }
    }
}

} // verus!

verus! {

/// Every executable in `m` names a task or job of `store`.
pub open spec fn all_runnable_in<T, J, O>(m: Multiset<ExecutableTask>, store: &ExecutableStore<T, J, O>) -> bool {
    forall|t: ExecutableTask| #[trigger] m.count(t) > 0 ==> t.runnable_in(store)
}

/// No task is held twice.
pub open spec fn tasks_unique(m: Multiset<ExecutableTask>) -> bool {
    forall|i: usize| #[trigger] m.count(ExecutableTask::Task(i)) <= 1
}

/// Every handle names a job.
pub open spec fn only_jobs(s: Seq<ExecutableTask>) -> bool {
    forall|k: int| 0 <= k < s.len() ==> #[trigger] s[k] is Job
}

/// The jobs that running `t` releases: for a job, those of its successors
/// whose last pending dependency it was; for a task, none.
pub open spec fn released_by<T, J, O>(store: &ExecutableStore<T, J, O>, t: ExecutableTask) -> Seq<ExecutableTask> {
    match t {
        ExecutableTask::Job(p) => job_handles(released(
            store.next_lists()[p as int],
            store.counters(),
            store.next_lists()[p as int].len(),
        )),
        _ => Seq::empty(),
    }
}

/// The store after `t` ran: a task holds, as a finished value, what its
/// `execute` returned, and no other task changed; a job holds, as a finished
/// value, what its `execute` returned on the values of its dependencies; its
/// successors each lost one pending dependency and its successor
/// list is empty; nothing else changed.
pub open spec fn ran<T: OrqestraTaskTrait<O>, J: OrqestraJobTrait<O>, O>(before: &ExecutableStore<T, J, O>, after: &ExecutableStore<T, J, O>, t: ExecutableTask) -> bool {
    &&& after.wf()
    &&& after.tasks().len() == before.tasks().len()
    &&& after.jobs().len() == before.jobs().len()
    &&& match t {
        ExecutableTask::Task(i) => {
            &&& after.jobs() == before.jobs()
            &&& forall|k: int| 0 <= k < before.tasks().len() && k != i ==> #[trigger] after.tasks()[k] == before.tasks()[k]
            &&& after.tasks()[i as int].f == before.tasks()[i as int].f
            &&& after.tasks()[i as int].ready
            &&& after.tasks()[i as int].return_value is Some
            &&& call_ensures(
                <T as OrqestraTaskTrait<O>>::execute,
                (&before.tasks()[i as int].f,),
                after.tasks()[i as int].return_value->Some_0,
            )
        },
        ExecutableTask::Job(p) => {
            &&& after.tasks() == before.tasks()
            &&& after.next_lists() == before.next_lists().update(p as int, Seq::<usize>::empty())
            &&& forall|j: int| 0 <= j < before.jobs().len() ==>
                #[trigger] after.counters()[j] == before.counters()[j]
                    - occurrences(before.next_lists()[p as int], j as usize)
            &&& forall|k: int| 0 <= k < before.jobs().len() && k != p ==> same_data(#[trigger] after.jobs()[k], before.jobs()[k])
            &&& after.jobs()[p as int].f == before.jobs()[p as int].f
            &&& after.jobs()[p as int].dep == before.jobs()[p as int].dep
            &&& after.jobs()[p as int].return_value is Some
            &&& exists|d: JobDep<'_, O>|
                #![trigger call_ensures(<J as OrqestraJobTrait<O>>::execute, (&before.jobs()[p as int].f, d), after.jobs()[p as int].return_value->Some_0)]
                d.entries() == before.dep_entries(p as int) && call_ensures(
                    <J as OrqestraJobTrait<O>>::execute,
                    (&before.jobs()[p as int].f, d),
                    after.jobs()[p as int].return_value->Some_0,
                )
            &&& after.jobs()[p as int].ready
        },
        ExecutableTask::Dummy => false,
    }
}

/// One round of a worker, from worker state `w0`, ring buffer state `s0`,
/// store `st0` and done count `d0` to `w1`, `s1`, `st1` and `d1`, reporting
/// `r` (see [`Worker::step`]).
pub open spec fn stepped<T: OrqestraTaskTrait<O>, J: OrqestraJobTrait<O>, O>(
    w0: WorkerState,
    w1: WorkerState,
    s0: RingBufferState,
    s1: RingBufferState,
    st0: &ExecutableStore<T, J, O>,
    st1: &ExecutableStore<T, J, O>,
    d0: u64,
    d1: u64,
    join_flag: bool,
    n: usize,
    r: WorkerAction,
) -> bool {
    if join_flag {
        &&& r == WorkerAction::Stop
        &&& w1 == w0
        &&& s1 == s0
        &&& *st1 == *st0
        &&& d1 == d0
    } else {
        let (wp, sp, picked_task) = picked(w0, s0, n);
        &&& s1 == sp
        &&& match picked_task {
            Some(t) => {
                &&& r == WorkerAction::Executed(t)
                &&& ran(st0, st1, t)
                &&& d1 == next_count(d0)
                &&& w1 == (WorkerState {
                    break_counter: 0,
                    toggle: false,
                    saving: wp.saving + released_by(st0, t),
                    ..wp
                })
            },
            None => {
                &&& *st1 == *st0
                &&& d1 == d0
                &&& wp.break_counter < IDLE_YIELD_ROUNDS ==> r == WorkerAction::Yield && w1 == (WorkerState {
                    break_counter: (wp.break_counter + 1) as usize,
                    toggle: true,
                    ..wp
                })
                &&& wp.break_counter >= IDLE_YIELD_ROUNDS ==> r == WorkerAction::Park && w1 == wp
            },
        }
    }
}

impl Worker {
    /// Runs `t` and stores the value its `execute` returned; a job's
    /// released successors are queued in the worker. Counts `t` as done
    /// and clears the idle state.
    fn run<T: OrqestraTaskTrait<O>, J: OrqestraJobTrait<O>, O>(
        &mut self,
        t: ExecutableTask,
        store: &mut ExecutableStore<T, J, O>,
        done_task: &mut u64,
    )
        requires
            old(store).wf(),
            t.runnable_in(old(store)),
        ensures
            ran(old(store), final(store), t),
            *final(done_task) == next_count(*old(done_task)),
            final(self)@ == (WorkerState {
                break_counter: 0,
                toggle: false,
                saving: old(self)@.saving + released_by(old(store), t),
                ..old(self)@
            }),
            final(self).ident() == old(self).ident(),
    {
        let ghost st0 = *store;
        t.execute_then_update(store);
        let ghost st1 = *store;
        proof {
            if t is Job {
                assert(st1.next_lists() =~= st0.next_lists());
                assert(st1.counters() =~= st0.counters());
            }
        }
        t.next_job(store, &mut self.saving_jobs);
        self.break_counter = 0;
        self.toggle = false;
        *done_task = if *done_task == u64::MAX { 0 } else { *done_task + 1 };
        proof {
            if let ExecutableTask::Job(p) = t {
                assert forall|k: int| 0 <= k < st0.jobs().len() && k != p implies same_data(#[trigger] store.jobs()[k], st0.jobs()[k]) by {
                    assert(same_data(store.jobs()[k], st1.jobs()[k]));
                    assert(st1.jobs()[k] == st0.jobs()[k]);
                }
                assert(same_data(store.jobs()[p as int], st1.jobs()[p as int]));
            }
        }
    }

    /// An idle round: yield for the first `IDLE_YIELD_ROUNDS` rounds in a
    /// row, marking that the next round looks at the secondary list; park
    /// after that.
    fn idle(&mut self) -> (r: WorkerAction)
        requires
            old(self)@.break_counter <= IDLE_YIELD_ROUNDS,
        ensures
            old(self)@.break_counter < IDLE_YIELD_ROUNDS ==> r == WorkerAction::Yield && final(self)@ == (WorkerState {
                break_counter: (old(self)@.break_counter + 1) as usize,
                toggle: true,
                ..old(self)@
            }),
            old(self)@.break_counter >= IDLE_YIELD_ROUNDS ==> r == WorkerAction::Park && final(self)@ == old(self)@,
            final(self).ident() == old(self).ident(),
    {
        if self.break_counter < IDLE_YIELD_ROUNDS {
            self.break_counter = self.break_counter + 1;
            self.toggle = true;
            WorkerAction::Yield
        } else {
            WorkerAction::Park
        }
    }

    /// One round of the worker loop.
    ///
    /// With the stop signal set, nothing happens and the worker stops.
    /// Otherwise it picks an executable (see [`picked`]); a picked executable
    /// is run, its value stored, the jobs it releases saved in the worker, and
    /// `done_task` counts it. With nothing to run, the round is idle: the
    /// caller yields, or parks once the worker has been idle for
    /// `IDLE_YIELD_ROUNDS` rounds in a row.
    pub fn step<T: OrqestraTaskTrait<O>, J: OrqestraJobTrait<O>, O, const N: usize>(
        &mut self,
        join_flag: bool,
        ring: &mut RingBufferCore<N>,
        store: &mut ExecutableStore<T, J, O>,
        done_task: &mut u64,
    ) -> (r: WorkerAction)
        requires
            old(ring).wf(),
            old(store).wf(),
            old(self).wf(N),
            N > 0,
            all_runnable_in(old(ring)@.contents().add(old(self)@.saving.to_multiset()), old(store)),
            tasks_unique(old(ring)@.contents().add(old(self)@.saving.to_multiset())),
        ensures
            final(ring).wf(),
            final(store).wf(),
            final(self).wf(N),
            final(self).ident() == old(self).ident(),
            all_runnable_in(final(ring)@.contents().add(final(self)@.saving.to_multiset()), final(store)),
            tasks_unique(final(ring)@.contents().add(final(self)@.saving.to_multiset())),
            only_jobs(old(self)@.saving) ==> only_jobs(final(self)@.saving),
            old(store).deps_settled() ==> final(store).deps_settled(),
            stepped(
                old(self)@,
                final(self)@,
                old(ring)@,
                final(ring)@,
                old(store),
                final(store),
                *old(done_task),
                *final(done_task),
                join_flag,
                N,
                r,
            ),
            !join_flag ==> final(ring)@.in_task == if old(self)@.saving.len() > 0 {
                next_count(old(ring)@.in_task)
            } else {
                old(ring)@.in_task
            },
            !join_flag ==> final(ring)@.contents().len() + (if r is Executed { 1nat } else { 0nat })
                == old(ring)@.contents().len() + (if old(self)@.saving.len() > 0 { 1nat } else { 0nat }),
            !join_flag ==> final(ring)@.contents().add(option_tasks(executed_of(r)))
                == old(ring)@.contents().add(option_tasks(first_saved(old(self)@.saving))),
            !join_flag ==> final(self)@.saving.to_multiset().add(option_tasks(first_saved(old(self)@.saving)))
                == old(self)@.saving.to_multiset().add(released_of(old(store), r).to_multiset()),
    {
        if join_flag {
            return WorkerAction::Stop;
        }
        let ghost all0 = old(ring)@.contents().add(old(self)@.saving.to_multiset());
        let picked_task = self.pick(ring);
        let ghost all1 = ring@.contents().add(self@.saving.to_multiset());
        let ghost ring1 = ring@;
        proof {
            broadcast use vstd::multiset::group_multiset_axioms;
            broadcast use vstd::seq_lib::group_to_multiset_ensures;
            let w0 = old(self)@;
            if w0.saving.len() > 0 {
                assert(self@.saving =~= w0.saving.drop_first());
            } else {
                assert(self@.saving =~= w0.saving);
            }
            let lhs = ring1.contents().add(self@.saving.to_multiset()).add(option_tasks(picked_task));
            let rhs = old(ring)@.contents().add(w0.saving.to_multiset());
            assert(lhs == rhs);
            assert(lhs.len() == ring1.contents().len() + self@.saving.to_multiset().len() + option_tasks(picked_task).len());
            assert(rhs.len() == old(ring)@.contents().len() + w0.saving.to_multiset().len());
            assert(self@.saving.to_multiset().len() == self@.saving.len());
            assert(w0.saving.to_multiset().len() == w0.saving.len());
            assert(option_tasks(picked_task).len() == if picked_task is Some { 1nat } else { 0nat });
            if w0.saving.len() > 0 {
                assert(w0.saving.drop_first() =~= w0.saving.remove(0));
                assert(w0.saving.to_multiset() =~= self@.saving.to_multiset().insert(w0.saving[0]));
            }
            assert(w0.saving.to_multiset() =~= self@.saving.to_multiset().add(option_tasks(first_saved(w0.saving))));
            assert forall|x: ExecutableTask| #[trigger] ring1.contents().add(option_tasks(picked_task)).count(x)
                == old(ring)@.contents().add(option_tasks(first_saved(w0.saving))).count(x) by {
                assert(lhs.count(x) == rhs.count(x));
            }
            assert(ring1.contents().add(option_tasks(picked_task))
                =~= old(ring)@.contents().add(option_tasks(first_saved(w0.saving))));
        }
        proof {
            broadcast use vstd::multiset::group_multiset_axioms;
            assert forall|x: ExecutableTask| #[trigger] all1.count(x) > 0 implies x.runnable_in(store) by {
                assert(all1.add(option_tasks(picked_task)).count(x) == all0.count(x));
            }
            if let Some(t) = picked_task {
                assert(all1.add(option_tasks(picked_task)).count(t) == all0.count(t));
                assert(all0.count(t) > 0);
            }
            assert forall|i: usize| #[trigger] all1.count(ExecutableTask::Task(i)) <= 1 by {
                let x = ExecutableTask::Task(i);
                assert(all1.add(option_tasks(picked_task)).count(x) == all0.count(x));
            }
        }
        match picked_task {
            Some(t) => {
                let ghost st0 = *store;
                let ghost saving1 = self@.saving;
                self.run(t, store, done_task);
                proof {
                    if st0.deps_settled() {
                        lemma_ran_keeps_deps_settled(&st0, store, t);
                    }
                    broadcast use vstd::multiset::group_multiset_axioms;
                    broadcast use vstd::seq_lib::group_to_multiset_ensures;
                    let rel = released_by(&st0, t);
                    assert(all1.add(option_tasks(picked_task)).count(t) == all0.count(t));
                    if t is Task {
                        assert(all1.count(t) == 0);
                    }
                    if let ExecutableTask::Job(p) = t {
                        let list = st0.next_lists()[p as int];
                        lemma_released_from_list(list, st0.counters(), list.len());
                        assert forall|i: int| 0 <= i < rel.len() implies (#[trigger] rel[i]).runnable_in(store) && rel[i] is Job by {
                            let j = released(list, st0.counters(), list.len())[i];
                            assert(list.contains(j));
                            let k = choose|k: int| 0 <= k < list.len() && list[k] == j;
                            assert(st0.jobs()[p as int].next_jobs@[k] < st0.jobs().len());
                        }
                    }
                    assert(self@.saving == saving1 + rel);
                    vstd::seq_lib::lemma_multiset_commutative(saving1, rel);
                    assert(self@.saving.to_multiset() == saving1.to_multiset().add(rel.to_multiset()));
                    assert(self@.saving.to_multiset().add(option_tasks(first_saved(old(self)@.saving)))
                        =~= old(self)@.saving.to_multiset().add(rel.to_multiset()));
                    let all2 = ring@.contents().add(self@.saving.to_multiset());
                    assert forall|x: ExecutableTask| #[trigger] all2.count(x) > 0 implies
                        all1.count(x) > 0 || (rel.contains(x) && x.runnable_in(store) && x is Job) by {
                        if ring@.contents().count(x) == 0 {
                            assert((saving1 + rel).to_multiset().count(x) > 0);
                            assert((saving1 + rel).contains(x));
                            let i = choose|i: int| 0 <= i < (saving1 + rel).len() && (saving1 + rel)[i] == x;
                            if i < saving1.len() {
                                assert(saving1[i] == x);
                                assert(saving1.contains(x));
                            } else {
                                assert(rel[i - saving1.len()] == x);
                            }
                        }
                    }
                    assert forall|x: ExecutableTask| #[trigger] all2.count(x) > 0 implies x.runnable_in(store) by {
                        if all1.count(x) > 0 {
                            assert(x.runnable_in(&st0));
                            if t is Task {
                                assert(x != t);
                            }
                        }
                    }
                    assert forall|i: usize| #[trigger] all2.count(ExecutableTask::Task(i)) <= 1 by {
                        let x = ExecutableTask::Task(i);
                        assert(all1.add(option_tasks(picked_task)).count(x) == all0.count(x));
                        if all2.count(x) > 0 {
                            assert(all1.count(x) > 0);
                        }
                        vstd::seq_lib::lemma_multiset_commutative(saving1, rel);
                        assert((saving1 + rel).to_multiset().count(x) == saving1.to_multiset().count(x) + rel.to_multiset().count(x));
                        if rel.to_multiset().count(x) > 0 {
                            assert(rel.contains(x));
                            let k = choose|k: int| 0 <= k < rel.len() && rel[k] == x;
                            assert(rel[k] is Job);
                        }
                    }
                }
                WorkerAction::Executed(t)
            },
            None => self.idle(),
        }
    }
}

} // verus!

verus! {

/// The executable a round ran, if any.
pub open spec fn executed_of(r: WorkerAction) -> Option<ExecutableTask> {
    match r {
        WorkerAction::Executed(t) => Some(t),
        _ => None,
    }
}

/// The jobs a round released: those that the executable it ran released.
pub open spec fn released_of<T, J, O>(store: &ExecutableStore<T, J, O>, r: WorkerAction) -> Seq<ExecutableTask> {
    match r {
        WorkerAction::Executed(t) => released_by(store, t),
        _ => Seq::empty(),
    }
}

/// The oldest saved job, if any: the one a round puts back into the ring.
pub open spec fn first_saved(saving: Seq<ExecutableTask>) -> Option<ExecutableTask> {
    if saving.len() > 0 {
        Some(saving[0])
    } else {
        None
    }
}

/// A sequence of job handles holds no task.
pub proof fn lemma_only_jobs_no_task(s: Seq<ExecutableTask>, i: usize)
    requires
        only_jobs(s),
    ensures
        s.to_multiset().count(ExecutableTask::Task(i)) == 0,
{
    broadcast use vstd::seq_lib::group_to_multiset_ensures;
    if s.to_multiset().count(ExecutableTask::Task(i)) > 0 {
        assert(s.contains(ExecutableTask::Task(i)));
        let k = choose|k: int| 0 <= k < s.len() && s[k] == ExecutableTask::Task(i);
        assert(s[k] is Job);
    }
}

} // verus!

verus! {

/// Running a task or job keeps every dependency settled: the job that ran
/// now holds its value, and every other job's successors and values are as
/// before.
pub proof fn lemma_ran_keeps_deps_settled<T: OrqestraTaskTrait<O>, J: OrqestraJobTrait<O>, O>(
    before: &ExecutableStore<T, J, O>,
    after: &ExecutableStore<T, J, O>,
    t: ExecutableTask,
)
    requires
        before.wf(),
        before.deps_settled(),
        t.runnable_in(before),
        ran(before, after, t),
    ensures
        after.deps_settled(),
{
    if let ExecutableTask::Job(p) = t {
        assert forall|x: int| 0 <= x < after.jobs().len() && #[trigger] after.jobs()[x].ready
            implies after.jobs()[x].return_value is Some by {
            if x != p {
                assert(same_data(after.jobs()[x], before.jobs()[x]));
            }
        }
        assert forall|j: int, k: int| 0 <= j < after.jobs().len() && 0 <= k < after.jobs()[j].dep@.len() implies {
            let d = #[trigger] after.jobs()[j].dep@[k];
            after.jobs()[d as int].ready || occurrences(after.jobs()[d as int].next_jobs@, j as usize) > 0
        } by {
            if j != p {
                assert(same_data(after.jobs()[j], before.jobs()[j]));
            }
            let d = before.jobs()[j].dep@[k];
            assert(after.jobs()[j].dep@[k] == d);
            assert(d < before.jobs().len());
            assert(before.jobs()[d as int].ready || occurrences(before.jobs()[d as int].next_jobs@, j as usize) > 0);
            if d != p {
                assert(same_data(after.jobs()[d as int], before.jobs()[d as int]));
                assert(after.jobs()[d as int].next_jobs@ == after.next_lists()[d as int]);
                assert(before.jobs()[d as int].next_jobs@ == before.next_lists()[d as int]);
                assert(before.next_lists().len() == before.jobs().len());
                assert(after.next_lists() == before.next_lists().update(p as int, Seq::<usize>::empty()));
                assert(after.next_lists()[d as int] == before.next_lists()[d as int]);
                assert(after.jobs()[d as int].ready == before.jobs()[d as int].ready);
            } else {
                assert(after.jobs()[p as int].ready);
            }
        }
    }
}

} // verus!

verus! {

/// A job released by its last dependency (its counter is zero) runs only
/// after its dependencies: when it runs, the dependency values it is handed
/// are all finished and present, and its stored value is what its `execute`
/// returned on them.
pub proof fn lemma_released_job_runs_on_finished_values<T: OrqestraTaskTrait<O>, J: OrqestraJobTrait<O>, O>(
    before: &ExecutableStore<T, J, O>,
    after: &ExecutableStore<T, J, O>,
    j: usize,
)
    requires
        before.wf(),
        before.deps_settled(),
        j < before.jobs().len(),
        before.counters()[j as int] == 0,
        ran(before, after, ExecutableTask::Job(j)),
    ensures
        exists|d: JobDep<'_, O>|
            #![trigger call_ensures(<J as OrqestraJobTrait<O>>::execute, (&before.jobs()[j as int].f, d), after.jobs()[j as int].return_value->Some_0)]
            {
                &&& d.entries() == before.dep_entries(j as int)
                &&& forall|k: int| 0 <= k < d.entries().len() ==> (#[trigger] d.entries()[k]).1 && d.entries()[k].0 is Some
                &&& call_ensures(
                    <J as OrqestraJobTrait<O>>::execute,
                    (&before.jobs()[j as int].f, d),
                    after.jobs()[j as int].return_value->Some_0,
                )
            },
{
    before.lemma_dependencies_done_when_released(j as int);
}

} // verus!

verus! {

/// A round that checks its reservation: while the reserved slot stays
/// empty, the round is idle and the reservation is kept; once the slot
/// holds an executable, the round runs it and the reservation is used up.
/// (The round has no saved job to put back and does not look at the
/// secondary list.)
pub proof fn lemma_reservation_used_up<T: OrqestraTaskTrait<O>, J: OrqestraJobTrait<O>, O>(
    w0: WorkerState,
    w1: WorkerState,
    s0: RingBufferState,
    s1: RingBufferState,
    st0: &ExecutableStore<T, J, O>,
    st1: &ExecutableStore<T, J, O>,
    d0: u64,
    d1: u64,
    n: usize,
    r: WorkerAction,
)
    requires
        stepped(w0, w1, s0, s1, st0, st1, d0, d1, false, n, r),
        w0.order is Some,
        w0.saving.len() == 0,
        !w0.toggle,
    ensures
        s0.slots[w0.order->Some_0 as int] is Some ==> {
            &&& r == WorkerAction::Executed(s0.slots[w0.order->Some_0 as int]->Some_0)
            &&& w1.order is None
            &&& s1 == s0.take_from_slot(w0.order->Some_0 as int)
        },
        s0.slots[w0.order->Some_0 as int] is None ==> {
            &&& !(r is Executed)
            &&& w1.order == w0.order
            &&& s1 == s0
        },
{
}

/// A round without a reservation, with no saved job to put back and not
/// looking at the secondary list, takes from the slot the tail designates:
/// it runs what it finds there, or reserves that slot when it is empty.
pub proof fn lemma_fresh_take_from_tail<T: OrqestraTaskTrait<O>, J: OrqestraJobTrait<O>, O>(
    w0: WorkerState,
    w1: WorkerState,
    s0: RingBufferState,
    s1: RingBufferState,
    st0: &ExecutableStore<T, J, O>,
    st1: &ExecutableStore<T, J, O>,
    d0: u64,
    d1: u64,
    n: usize,
    r: WorkerAction,
)
    requires
        stepped(w0, w1, s0, s1, st0, st1, d0, d1, false, n, r),
        w0.order is None,
        w0.saving.len() == 0,
        !w0.toggle,
    ensures
        s1 == s0.dequeued(n).0,
        match s0.dequeued(n).1 {
            DequeueStatus::Taken(t) => r == WorkerAction::Executed(t) && w1.order is None,
            DequeueStatus::Order(i) => !(r is Executed) && w1.order == Some(i),
        },
{
}

/// What one round does to the count of idle rounds: a round that ran an
/// executable resets it; an idle round below `IDLE_YIELD_ROUNDS` yields and
/// counts one more; an idle round at the limit parks and keeps it.
pub open spec fn counts_idle(c0: usize, c1: usize, r: WorkerAction) -> bool {
    match r {
        WorkerAction::Executed(_) => c1 == 0,
        WorkerAction::Yield => c0 < IDLE_YIELD_ROUNDS && c1 == c0 + 1,
        WorkerAction::Park => c0 >= IDLE_YIELD_ROUNDS && c1 == c0,
        WorkerAction::Stop => c1 == c0,
    }
}

/// Every worker round counts idle rounds as [`counts_idle`] says.
pub proof fn lemma_round_counts_idle<T: OrqestraTaskTrait<O>, J: OrqestraJobTrait<O>, O>(
    w0: WorkerState,
    w1: WorkerState,
    s0: RingBufferState,
    s1: RingBufferState,
    st0: &ExecutableStore<T, J, O>,
    st1: &ExecutableStore<T, J, O>,
    d0: u64,
    d1: u64,
    join_flag: bool,
    n: usize,
    r: WorkerAction,
)
    requires
        stepped(w0, w1, s0, s1, st0, st1, d0, d1, join_flag, n, r),
    ensures
        counts_idle(w0.break_counter, w1.break_counter, r),
{
}

/// The number of idle rounds at the end of a run of rounds, since the last
/// round that ran an executable (or since the start).
pub open spec fn trailing_idle(rs: Seq<WorkerAction>) -> nat
    decreases rs.len(),
{
    if rs.len() == 0 {
        0
    } else if rs.last() is Executed {
        0
    } else {
        trailing_idle(rs.drop_last()) + 1
    }
}

/// Over a run of rounds of a worker that starts with no idle round
/// counted: the count is the number of idle rounds since the last round
/// that ran an executable, capped at `IDLE_YIELD_ROUNDS`, and each idle
/// round yields while fewer than `IDLE_YIELD_ROUNDS` idle rounds came
/// before it, and parks otherwise.
pub proof fn lemma_idle_rounds_decide(cs: Seq<usize>, rs: Seq<WorkerAction>)
    requires
        cs.len() == rs.len() + 1,
        cs[0] == 0,
        forall|i: int| 0 <= i < rs.len() ==> counts_idle(cs[i], cs[i + 1], #[trigger] rs[i]) && !(rs[i] is Stop),
    ensures
        cs.last() == if trailing_idle(rs) < IDLE_YIELD_ROUNDS { trailing_idle(rs) } else { IDLE_YIELD_ROUNDS as nat },
        forall|i: int| 0 <= i < rs.len() && !(#[trigger] rs[i] is Executed)
            ==> (rs[i] is Yield <==> trailing_idle(rs.take(i)) < IDLE_YIELD_ROUNDS),
    decreases rs.len(),
{
    if rs.len() > 0 {
        let k = rs.len() - 1;
        lemma_idle_rounds_decide(cs.drop_last(), rs.drop_last());
        assert(rs.drop_last() =~= rs.take(k));
        assert forall|i: int| 0 <= i < rs.len() && !(#[trigger] rs[i] is Executed)
            implies (rs[i] is Yield <==> trailing_idle(rs.take(i)) < IDLE_YIELD_ROUNDS) by {
            if i < k {
                assert(rs.drop_last()[i] == rs[i]);
                assert(rs.drop_last().take(i) =~= rs.take(i));
            } else {
                assert(counts_idle(cs[k], cs[k + 1], rs[k]));
                assert(cs.drop_last().last() == cs[k]);
            }
        }
        assert(counts_idle(cs[k], cs[k + 1], rs[k]));
        assert(cs.drop_last().last() == cs[k]);
    }
}

} // verus!

verus! {

/// Running `t` finishes it with a value its `execute` returned, and leaves
/// every other finished task or job finished with the value it held.
pub proof fn lemma_ran_finishes<T: OrqestraTaskTrait<O>, J: OrqestraJobTrait<O>, O>(
    before: &ExecutableStore<T, J, O>,
    after: &ExecutableStore<T, J, O>,
    t: ExecutableTask,
)
    requires
        before.values_from_execute(),
        t.runnable_in(before),
        ran(before, after, t),
    ensures
        after.values_from_execute(),
        finished(after, t),
        forall|x: ExecutableTask| #[trigger] finished(before, x) ==> finished(after, x),
{
    match t {
        ExecutableTask::Task(i) => {
            assert forall|k: int| 0 <= k < after.tasks().len() && #[trigger] after.tasks()[k].ready implies {
                &&& after.tasks()[k].return_value is Some
                &&& call_ensures(
                    <T as OrqestraTaskTrait<O>>::execute,
                    (&after.tasks()[k].f,),
                    after.tasks()[k].return_value->Some_0,
                )
            } by {
                if k != i {
                    assert(after.tasks()[k] == before.tasks()[k]);
                }
            }
            assert forall|x: ExecutableTask| #[trigger] finished(before, x) implies finished(after, x) by {
                if let ExecutableTask::Task(k) = x {
                    if k != i {
                        assert(after.tasks()[k as int] == before.tasks()[k as int]);
                    }
                }
            }
        },
        ExecutableTask::Job(p) => {
            assert forall|k: int| 0 <= k < after.tasks().len() && #[trigger] after.tasks()[k].ready implies {
                &&& after.tasks()[k].return_value is Some
                &&& call_ensures(
                    <T as OrqestraTaskTrait<O>>::execute,
                    (&after.tasks()[k].f,),
                    after.tasks()[k].return_value->Some_0,
                )
            } by {
                assert(after.tasks()[k] == before.tasks()[k]);
            }
            assert forall|x: int| 0 <= x < after.jobs().len() && #[trigger] after.jobs()[x].ready implies {
                &&& after.jobs()[x].return_value is Some
                &&& exists|d: JobDep<'_, O>|
                    #![trigger call_ensures(<J as OrqestraJobTrait<O>>::execute, (&after.jobs()[x].f, d), after.jobs()[x].return_value->Some_0)]
                    call_ensures(
                        <J as OrqestraJobTrait<O>>::execute,
                        (&after.jobs()[x].f, d),
                        after.jobs()[x].return_value->Some_0,
                    )
            } by {
                if x != p {
                    assert(same_data(after.jobs()[x], before.jobs()[x]));
                    assert(before.jobs()[x].ready);
                    let d = choose|d: JobDep<'_, O>|
                        #![trigger call_ensures(<J as OrqestraJobTrait<O>>::execute, (&before.jobs()[x].f, d), before.jobs()[x].return_value->Some_0)]
                        call_ensures(
                            <J as OrqestraJobTrait<O>>::execute,
                            (&before.jobs()[x].f, d),
                            before.jobs()[x].return_value->Some_0,
                        );
                    assert(call_ensures(
                        <J as OrqestraJobTrait<O>>::execute,
                        (&after.jobs()[x].f, d),
                        after.jobs()[x].return_value->Some_0,
                    ));
                } else {
                    let d = choose|d: JobDep<'_, O>|
                        #![trigger call_ensures(<J as OrqestraJobTrait<O>>::execute, (&before.jobs()[p as int].f, d), after.jobs()[p as int].return_value->Some_0)]
                        d.entries() == before.dep_entries(p as int) && call_ensures(
                            <J as OrqestraJobTrait<O>>::execute,
                            (&before.jobs()[p as int].f, d),
                            after.jobs()[p as int].return_value->Some_0,
                        );
                    assert(call_ensures(
                        <J as OrqestraJobTrait<O>>::execute,
                        (&after.jobs()[x].f, d),
                        after.jobs()[x].return_value->Some_0,
                    ));
                }
            }
            assert forall|x: ExecutableTask| #[trigger] finished(before, x) implies finished(after, x) by {
                if let ExecutableTask::Job(k) = x {
                    if k != p {
                        assert(same_data(after.jobs()[k as int], before.jobs()[k as int]));
                    }
                }
            }
        },
        ExecutableTask::Dummy => {},
    }
}

} // verus!
