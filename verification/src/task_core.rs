use vstd::prelude::*;
use crate::executable_task::ExecutableTask;
use crate::ring_buffer_core::{
    DequeueStatus, RingBufferSpace, first_waiting, in_ring_order, lemma_first_waiting,
    lemma_first_waiting_at, lemma_in_ring_order_ends, lemma_in_ring_order_put, lemma_in_ring_order_take,
    lemma_next_slot, next_count, ring_pos, slot_index,
};
use crate::store::ExecutableStore;
use crate::task::WaitingTask;

verus! {

/// The abstract state of a [`RingBuffer`].
pub struct TaskRingState {
    /// The counter that designates the next slot to fill (wrapping).
    pub head: u64,
    /// The counter that designates the next slot to take from (wrapping).
    pub tail: u64,
    /// The content of each slot.
    pub slots: Seq<Option<ExecutableTask>>,
    /// Puts that found their slot occupied, oldest first, with their slot.
    pub waiting: Seq<(usize, ExecutableTask)>,
}

impl TaskRingState {
    /// There are `n` slots and every waiting put targets an occupied slot.
    pub open spec fn wf(self, n: usize) -> bool {
        &&& self.slots.len() == n
        &&& forall|k: int| 0 <= k < self.waiting.len() ==> {
            &&& #[trigger] self.waiting[k].0 < n
            &&& self.slots[self.waiting[k].0 as int] is Some
        }
    }

    /// Claims the slot the head designates for `t`; when that slot is
    /// occupied, the put waits for it.
    pub open spec fn put(self, t: ExecutableTask, n: usize) -> TaskRingState {
        let idx = slot_index(self.head, n);
        let s = TaskRingState { head: next_count(self.head), ..self };
        if self.slots[idx] is None {
            TaskRingState { slots: s.slots.update(idx, Some(t)), ..s }
        } else {
            TaskRingState { waiting: s.waiting.push((idx as usize, t)), ..s }
        }
    }

    /// Claims the slot the head designates for `t` only if it is empty;
    /// otherwise the put is refused and nothing changes.
    pub open spec fn try_put(self, t: ExecutableTask, n: usize) -> (TaskRingState, bool) {
        let idx = slot_index(self.head, n);
        if self.slots[idx] is None {
            (TaskRingState { head: next_count(self.head), slots: self.slots.update(idx, Some(t)), ..self }, true)
        } else {
            (self, false)
        }
    }

    /// Takes from slot `idx`: an occupied slot gives up its executable and
    /// the oldest put waiting for it, if any, fills it again; an empty slot
    /// reports its index.
    pub open spec fn taken_at(self, idx: int) -> (TaskRingState, DequeueStatus) {
        match self.slots[idx] {
            Some(t) => {
                let k = first_waiting(self.waiting, idx as usize) as int;
                if k < self.waiting.len() {
                    (TaskRingState {
                        slots: self.slots.update(idx, Some(self.waiting[k].1)),
                        waiting: self.waiting.remove(k),
                        ..self
                    }, DequeueStatus::Taken(t))
                } else {
                    (TaskRingState { slots: self.slots.update(idx, None), ..self }, DequeueStatus::Taken(t))
                }
            },
            None => (self, DequeueStatus::Order(idx as usize)),
        }
    }

    /// Takes from the slot the tail designates; the tail moves on either way.
    pub open spec fn dequeued(self, n: usize) -> (TaskRingState, DequeueStatus) {
        TaskRingState { tail: next_count(self.tail), ..self }.taken_at(slot_index(self.tail, n))
    }
}

/// A fixed ring of `RING_BUFFER_SIZE` slots that producers fill through
/// `head` and consumers empty through `tail`.
pub struct RingBuffer<const RING_BUFFER_SIZE: usize> {
    head: u64,
    tail: u64,
    queue: Vec<RingBufferSpace>,
    waiting: Vec<(usize, ExecutableTask)>,
}

impl<const RING_BUFFER_SIZE: usize> View for RingBuffer<RING_BUFFER_SIZE> {
    type V = TaskRingState;

    closed spec fn view(&self) -> TaskRingState {
        TaskRingState {
            head: self.head,
            tail: self.tail,
            slots: self.queue@.map_values(|s: RingBufferSpace| s.task),
            waiting: self.waiting@,
        }
    }
}

impl<const RING_BUFFER_SIZE: usize> RingBuffer<RING_BUFFER_SIZE> {
    /// The abstract state is consistent and each slot's `empty` flag agrees
    /// with its content.
    pub closed spec fn wf(&self) -> bool {
        &&& self@.wf(RING_BUFFER_SIZE)
        &&& forall|i: int| 0 <= i < self.queue@.len() ==> #[trigger] self.queue@[i].empty == (self.queue@[i].task is None)
    }

    /// A consistent ring buffer has a consistent abstract state: it has
    /// `RING_BUFFER_SIZE` slots and every waiting put targets an occupied
    /// one.
    pub proof fn lemma_view_wf(&self)
        requires
            self.wf(),
        ensures
            self@.wf(RING_BUFFER_SIZE),
    {
    }

    /// An empty ring of `RING_BUFFER_SIZE` slots.
    pub fn new() -> (r: Self)
        ensures
            r.wf(),
            r@ == (TaskRingState {
                head: 0,
                tail: 0,
                slots: Seq::new(RING_BUFFER_SIZE as nat, |i: int| None::<ExecutableTask>),
                waiting: Seq::<(usize, ExecutableTask)>::empty(),
            }),
    {
        let mut queue: Vec<RingBufferSpace> = Vec::with_capacity(RING_BUFFER_SIZE);
        let mut i: usize = 0;
        while i < RING_BUFFER_SIZE
            invariant
                i <= RING_BUFFER_SIZE,
                queue@.len() == i,
                forall|k: int| 0 <= k < i ==> (#[trigger] queue@[k]).task is None && queue@[k].empty,
            decreases RING_BUFFER_SIZE - i,
        {
            queue.push(RingBufferSpace { task: None, empty: true });
            i = i + 1;
        }
        let r = RingBuffer { head: 0, tail: 0, queue, waiting: Vec::new() };
        assert(r@.slots =~= Seq::new(RING_BUFFER_SIZE as nat, |i: int| None::<ExecutableTask>));
        r
    }

    /// The content of slot `idx`.
    pub fn slot(&self, idx: usize) -> (r: Option<ExecutableTask>)
        requires
            idx < self@.slots.len(),
        ensures
            r == self@.slots[idx as int],
    {
        self.queue[idx].task
    }

    fn index_of(counter: u64) -> (r: usize)
        requires
            RING_BUFFER_SIZE > 0,
        ensures
            r == slot_index(counter, RING_BUFFER_SIZE),
            r < RING_BUFFER_SIZE,
    {
        let m: usize = RING_BUFFER_SIZE - 1;
        let c: usize = counter as usize;
        assert(c & m <= m) by (bit_vector);
        c & m
    }

    fn bump(c: u64) -> (r: u64)
        ensures
            r == next_count(c),
    {
        if c == u64::MAX {
            0
        } else {
            c + 1
        }
    }

    /// Puts an executable into the slot the head designates. When that slot
    /// is still occupied, the put waits there and completes as soon as the
    /// slot is emptied.
    pub fn enqueue(&mut self, executable_task: ExecutableTask)
        requires
            old(self).wf(),
            RING_BUFFER_SIZE > 0,
        ensures
            final(self).wf(),
            final(self)@ == old(self)@.put(executable_task, RING_BUFFER_SIZE),
            final(self)@.head == next_count(old(self)@.head),
            final(self)@.tail == old(self)@.tail,
            old(self)@.slots[slot_index(old(self)@.head, RING_BUFFER_SIZE)] is None ==> {
                &&& final(self)@.slots == old(self)@.slots.update(slot_index(old(self)@.head, RING_BUFFER_SIZE), Some(executable_task))
                &&& final(self)@.waiting == old(self)@.waiting
            },
            old(self)@.slots[slot_index(old(self)@.head, RING_BUFFER_SIZE)] is Some ==> {
                &&& final(self)@.slots == old(self)@.slots
                &&& final(self)@.waiting == old(self)@.waiting.push((slot_index(old(self)@.head, RING_BUFFER_SIZE) as usize, executable_task))
            },
    {
        let idx = Self::index_of(self.head);
        self.head = Self::bump(self.head);
        let ghost s0 = old(self)@;
        if self.queue[idx].empty {
            self.queue[idx] = RingBufferSpace { task: Some(executable_task), empty: false };
            assert(self@.slots =~= s0.slots.update(idx as int, Some(executable_task)));
            assert forall|k: int| 0 <= k < self@.waiting.len() implies {
                &&& #[trigger] self@.waiting[k].0 < RING_BUFFER_SIZE
                &&& self@.slots[self@.waiting[k].0 as int] is Some
            } by {
                assert(s0.waiting[k].0 < RING_BUFFER_SIZE);
            }
        } else {
            self.waiting.push((idx, executable_task));
            assert forall|k: int| 0 <= k < self@.waiting.len() implies {
                &&& #[trigger] self@.waiting[k].0 < RING_BUFFER_SIZE
                &&& self@.slots[self@.waiting[k].0 as int] is Some
            } by {
                if k < s0.waiting.len() {
                    assert(self@.waiting[k] == s0.waiting[k]);
                }
            }
        }
    }

    /// Puts an executable into the slot the head designates only when that
    /// slot is empty. Otherwise the ring is full there: an error is returned
    /// and the ring is left as it was.
    pub fn try_enqueue(&mut self, executable_task: ExecutableTask) -> (r: Result<(), &'static str>)
        requires
            old(self).wf(),
            RING_BUFFER_SIZE > 0,
        ensures
            final(self).wf(),
            (final(self)@, r is Ok) == old(self)@.try_put(executable_task, RING_BUFFER_SIZE),
            r is Err ==> r->Err_0@ == "Cannot insert task because ring buffer is full"@,
    {
        let idx = Self::index_of(self.head);
        let ghost s0 = old(self)@;
        if !self.queue[idx].empty {
            return Err("Cannot insert task because ring buffer is full");
        }
        self.head = Self::bump(self.head);
        self.queue[idx] = RingBufferSpace { task: Some(executable_task), empty: false };
        assert(self@.slots =~= s0.slots.update(idx as int, Some(executable_task)));
        assert forall|k: int| 0 <= k < self@.waiting.len() implies {
            &&& #[trigger] self@.waiting[k].0 < RING_BUFFER_SIZE
            &&& self@.slots[self@.waiting[k].0 as int] is Some
        } by {
            assert(s0.waiting[k].0 < RING_BUFFER_SIZE);
        }
        Ok(())
    }

    fn take_at(&mut self, idx: usize) -> (r: DequeueStatus)
        requires
            old(self).wf(),
            idx < RING_BUFFER_SIZE,
        ensures
            final(self).wf(),
            (final(self)@, r) == old(self)@.taken_at(idx as int),
    {
        let ghost s0 = self@;
        if self.queue[idx].empty {
            return DequeueStatus::Order(idx);
        }
        assert(s0.slots[idx as int] == self.queue@[idx as int].task);
        let t = match self.queue[idx].task {
            Some(t) => t,
            None => {
                assert(false);
                ExecutableTask::Dummy
            },
        };
        let n = self.waiting.len();
        let mut k: usize = 0;
        while k < n
            invariant
                n == self.waiting@.len(),
                self@ == s0,
                k <= n,
                forall|i: int| 0 <= i < k ==> #[trigger] self.waiting@[i].0 != idx,
            ensures
                k <= n,
                self@ == s0,
                forall|i: int| 0 <= i < k ==> #[trigger] self.waiting@[i].0 != idx,
                k < n ==> self.waiting@[k as int].0 == idx,
            decreases n - k,
        {
            if self.waiting[k].0 == idx {
                break;
            }
            k = k + 1;
        }
        proof {
            lemma_first_waiting_at(s0.waiting, idx, k as int);
        }
        if k < n {
            let (_, w) = self.waiting.remove(k);
            self.queue[idx] = RingBufferSpace { task: Some(w), empty: false };
            assert(self@.slots =~= s0.slots.update(idx as int, Some(w)));
        } else {
            self.queue[idx] = RingBufferSpace { task: None, empty: true };
            assert(self@.slots =~= s0.slots.update(idx as int, None));
        }
        proof {
            let s1 = self@;
            assert forall|j: int| 0 <= j < s1.waiting.len() implies {
                &&& #[trigger] s1.waiting[j].0 < RING_BUFFER_SIZE
                &&& s1.slots[s1.waiting[j].0 as int] is Some
            } by {
                if k < n {
                    if j < k {
                        assert(s1.waiting[j] == s0.waiting[j]);
                    } else {
                        assert(s1.waiting[j] == s0.waiting[j + 1]);
                    }
                } else {
                    assert(s1.waiting[j] == s0.waiting[j]);
                    assert(s0.waiting[j].0 != idx);
                }
            }
        }
        DequeueStatus::Taken(t)
    }

    /// Takes from the slot the tail designates; the tail moves on either way.
    /// An empty slot gives `Order(idx)`, to be checked again later with
    /// `dequeue_via_order`.
    pub fn dequeue(&mut self) -> (r: DequeueStatus)
        requires
            old(self).wf(),
            RING_BUFFER_SIZE > 0,
        ensures
            final(self).wf(),
            (final(self)@, r) == old(self)@.dequeued(RING_BUFFER_SIZE),
            final(self)@.tail == next_count(old(self)@.tail),
            final(self)@.head == old(self)@.head,
            old(self)@.slots[slot_index(old(self)@.tail, RING_BUFFER_SIZE)] is None ==> {
                &&& r == DequeueStatus::Order(slot_index(old(self)@.tail, RING_BUFFER_SIZE) as usize)
                &&& final(self)@.slots == old(self)@.slots
                &&& final(self)@.waiting == old(self)@.waiting
            },
            old(self)@.slots[slot_index(old(self)@.tail, RING_BUFFER_SIZE)] is Some ==>
                r == DequeueStatus::Taken(old(self)@.slots[slot_index(old(self)@.tail, RING_BUFFER_SIZE)]->Some_0),
    {
        let idx = Self::index_of(self.tail);
        self.tail = Self::bump(self.tail);
        self.take_at(idx)
    }

    /// Takes from slot `idx`, reserved earlier by `dequeue`.
    pub fn dequeue_via_order(&mut self, idx: usize) -> (r: DequeueStatus)
        requires
            old(self).wf(),
            idx < RING_BUFFER_SIZE,
        ensures
            final(self).wf(),
            (final(self)@, r) == old(self)@.taken_at(idx as int),
    {
        self.take_at(idx)
    }

    /// Drops every executable the ring holds, including the waiting puts.
    pub fn drop_queue(&mut self)
        requires
            old(self).wf(),
        ensures
            final(self).wf(),
            final(self)@ == (TaskRingState {
                slots: Seq::new(RING_BUFFER_SIZE as nat, |i: int| None::<ExecutableTask>),
                waiting: Seq::<(usize, ExecutableTask)>::empty(),
                ..old(self)@
            }),
    {
        let mut i: usize = 0;
        while i < RING_BUFFER_SIZE
            invariant
                i <= RING_BUFFER_SIZE,
                self.queue@.len() == RING_BUFFER_SIZE,
                self.head == old(self).head,
                self.tail == old(self).tail,
                forall|k: int| 0 <= k < i ==> (#[trigger] self.queue@[k]).task is None && self.queue@[k].empty,
            decreases RING_BUFFER_SIZE - i,
        {
            self.queue[i] = RingBufferSpace { task: None, empty: true };
            i = i + 1;
        }
        self.waiting = Vec::new();
        assert(self@.slots =~= Seq::new(RING_BUFFER_SIZE as nat, |i: int| None::<ExecutableTask>));
    }
}

/// Counts the tasks spawned and holds the ring buffer they go to.
pub struct TaskCore<const RING_BUFFER_SIZE: usize> {
    in_task: u64,
    ring_buffer: RingBuffer<RING_BUFFER_SIZE>,
}

impl<const RING_BUFFER_SIZE: usize> TaskCore<RING_BUFFER_SIZE> {
    /// The number of tasks spawned so far (wrapping).
    pub closed spec fn spawned(&self) -> u64 {
        self.in_task
    }

    /// The state of the ring buffer.
    pub closed spec fn ring(&self) -> TaskRingState {
        self.ring_buffer@
    }

    pub closed spec fn wf(&self) -> bool {
        self.ring_buffer.wf()
    }

    /// A consistent task core holds a consistent ring buffer.
    pub proof fn lemma_view_wf(&self)
        requires
            self.wf(),
        ensures
            self.ring().wf(RING_BUFFER_SIZE),
    {
    }

    /// No task spawned yet, and an empty ring buffer.
    pub fn new() -> (r: Self)
        ensures
            r.wf(),
            r.spawned() == 0,
            r.ring() == (TaskRingState {
                head: 0,
                tail: 0,
                slots: Seq::new(RING_BUFFER_SIZE as nat, |i: int| None::<ExecutableTask>),
                waiting: Seq::<(usize, ExecutableTask)>::empty(),
            }),
    {
        TaskCore { in_task: 0, ring_buffer: RingBuffer::new() }
    }

    /// The number of tasks spawned so far (wrapping).
    pub fn in_task(&self) -> (r: u64)
        ensures
            r == self.spawned(),
    {
        self.in_task
    }

    /// The ring buffer.
    pub fn ring_buffer(&self) -> (r: &RingBuffer<RING_BUFFER_SIZE>)
        ensures
            r@ == self.ring(),
            r.wf() == self.wf(),
    {
        &self.ring_buffer
    }

    /// Takes from the ring buffer (see [`RingBuffer::dequeue`]).
    pub fn dequeue(&mut self) -> (r: DequeueStatus)
        requires
            old(self).wf(),
            RING_BUFFER_SIZE > 0,
        ensures
            final(self).wf(),
            final(self).spawned() == old(self).spawned(),
            (final(self).ring(), r) == old(self).ring().dequeued(RING_BUFFER_SIZE),
            final(self).ring().tail == next_count(old(self).ring().tail),
            final(self).ring().head == old(self).ring().head,
    {
        self.ring_buffer.dequeue()
    }

    /// Registers `task` in the store, counts it, and puts its handle into
    /// the ring buffer; when the slot it claims is still occupied, the put
    /// waits for it.
    pub fn spawn_task<T, J, O>(&mut self, store: &mut ExecutableStore<T, J, O>, task: T) -> (r: ExecutableTask)
        requires
            old(self).wf(),
            old(store).wf(),
            RING_BUFFER_SIZE > 0,
        ensures
            final(self).wf(),
            final(store).wf(),
            r == ExecutableTask::Task(old(store).tasks().len() as usize),
            final(store).jobs() == old(store).jobs(),
            final(store).tasks() == old(store).tasks().push(
                WaitingTask::<T, O> { f: task, return_value: None, ready: false },
            ),
            final(self).spawned() == next_count(old(self).spawned()),
            final(self).ring() == old(self).ring().put(r, RING_BUFFER_SIZE),
            final(self).ring().head == next_count(old(self).ring().head),
            final(self).ring().tail == old(self).ring().tail,
    {
        self.in_task = if self.in_task == u64::MAX { 0 } else { self.in_task + 1 };
        let executable_task = ExecutableTask::new_task(store, task);
        self.ring_buffer.enqueue(executable_task);
        executable_task
    }

    /// Registers `task` in the store and puts its handle into the ring
    /// buffer only if the slot it claims is empty. When the slot is occupied
    /// the task is dropped again, not counted, the ring is left as it was,
    /// and an error is returned.
    pub fn try_spawn_task<T, J, O>(&mut self, store: &mut ExecutableStore<T, J, O>, task: T) -> (r: Result<(), &'static str>)
        requires
            old(self).wf(),
            old(store).wf(),
            RING_BUFFER_SIZE > 0,
        ensures
            final(self).wf(),
            final(store).wf(),
            final(store).jobs() == old(store).jobs(),
            r is Ok ==> final(store).tasks() == old(store).tasks().push(
                WaitingTask { f: task, return_value: None, ready: false },
            ),
            r is Err ==> final(store).tasks() == old(store).tasks(),
            (final(self).ring(), r is Ok) == old(self).ring().try_put(
                ExecutableTask::Task(old(store).tasks().len() as usize),
                RING_BUFFER_SIZE,
            ),
            r is Ok ==> final(self).spawned() == next_count(old(self).spawned()),
            r is Err ==> final(self).spawned() == old(self).spawned()
                && r->Err_0@ == "Cannot insert task because ring buffer is full"@,
    {
        let before = self.in_task;
        self.in_task = if self.in_task == u64::MAX { 0 } else { self.in_task + 1 };
        let executable_task = ExecutableTask::new_task(store, task);
        match self.ring_buffer.try_enqueue(executable_task) {
            Ok(()) => Ok(()),
            Err(err) => {
                store.pop_task();
                assert(store.tasks() =~= old(store).tasks());
                self.in_task = if self.in_task == 0 { u64::MAX } else { self.in_task - 1 };
                assert(self.in_task == before);
                Err(err)
            },
        }
    }
}

} // verus!

verus! {

impl TaskRingState {
    /// The ring holds `q` in order (see [`in_ring_order`]) and no put waits
    /// for a slot.
    pub open spec fn holds_in_order(self, n: usize, q: Seq<ExecutableTask>) -> bool {
        &&& in_ring_order(self.head, self.tail, self.slots, n, q)
        &&& self.waiting.len() == 0
    }
}

/// A fresh ring of a power-of-two number of slots holds nothing, in order.
pub proof fn lemma_fresh_task_ring_in_order(n: usize)
    requires
        n > 0,
        n & (n - 1) as usize == 0,
    ensures
        (TaskRingState {
            head: 0,
            tail: 0,
            slots: Seq::new(n as nat, |i: int| None::<ExecutableTask>),
            waiting: Seq::<(usize, ExecutableTask)>::empty(),
        }).holds_in_order(n, Seq::empty()),
{
    lemma_next_slot(0, n);
}

/// In a ring of a power-of-two number of slots holding `q` in order, a
/// non-blocking put is refused exactly when the ring is full, and a refused
/// put changes nothing; an accepted put, or a blocking put while the ring is
/// not full, places `t` behind `q`. A take gives `q[0]` and leaves the rest
/// in order, or, when nothing is held, reports the slot the tail designated.
pub proof fn lemma_task_ring_first_in_first_out(s: TaskRingState, n: usize, q: Seq<ExecutableTask>, t: ExecutableTask)
    requires
        s.holds_in_order(n, q),
    ensures
        s.try_put(t, n).1 <==> q.len() < n,
        !s.try_put(t, n).1 ==> s.try_put(t, n).0 == s,
        q.len() < n ==> s.try_put(t, n).0.holds_in_order(n, q.push(t)),
        q.len() < n ==> s.put(t, n) == s.try_put(t, n).0,
        q.len() > 0 ==> s.dequeued(n).1 == DequeueStatus::Taken(q[0])
            && s.dequeued(n).0.holds_in_order(n, q.drop_first()),
        q.len() == 0 ==> s.dequeued(n).1 == DequeueStatus::Order(slot_index(s.tail, n) as usize),
{
    lemma_in_ring_order_ends(s.head, s.tail, s.slots, n, q);
    if q.len() < n {
        lemma_in_ring_order_put(s.head, s.tail, s.slots, n, q, t);
    }
    if q.len() > 0 {
        lemma_in_ring_order_take(s.head, s.tail, s.slots, n, q);
    }
}

} // verus!

verus! {

/// Every put claims the slot the head designates and moves the head on by
/// one, whether that slot was empty (the executable is placed there) or
/// occupied (the put waits for that slot); so with a power-of-two number of
/// slots, two puts in a row claim two consecutive slots.
pub proof fn lemma_task_puts_claim_consecutive_slots(s: TaskRingState, t: ExecutableTask, u: ExecutableTask, n: usize)
    requires
        s.wf(n),
        n >= 2,
        n & (n - 1) as usize == 0,
    ensures
        ({
            let b = slot_index(s.head, n);
            let s1 = s.put(t, n);
            let s2 = s1.put(u, n);
            let b1 = ring_pos(b, 1, n as int);
            &&& s1.head == next_count(s.head)
            &&& s1.tail == s.tail
            &&& s.slots[b] is None ==> s1.slots == s.slots.update(b, Some(t)) && s1.waiting == s.waiting
            &&& s.slots[b] is Some ==> s1.slots == s.slots && s1.waiting == s.waiting.push((b as usize, t))
            &&& b1 != b
            &&& s2.head == next_count(s1.head)
            &&& s2.slots[b1] == Some(u) || s2.waiting.last() == (b1 as usize, u)
        }),
{
    lemma_next_slot(s.head, n);
}

/// Every take moves the tail on by one, whether the slot was empty (its
/// index is reported and nothing else changes) or occupied (its executable
/// is taken); so with a power-of-two number of slots, two takes in a row
/// look at two consecutive slots, and two takes from an empty ring reserve
/// two different slots.
pub proof fn lemma_task_takes_walk_the_ring(s: TaskRingState, n: usize)
    requires
        s.wf(n),
        n >= 2,
        n & (n - 1) as usize == 0,
    ensures
        ({
            let b = slot_index(s.tail, n);
            let (s1, r) = s.dequeued(n);
            &&& s1.tail == next_count(s.tail)
            &&& s1.head == s.head
            &&& slot_index(s1.tail, n) == ring_pos(b, 1, n as int)
            &&& ring_pos(b, 1, n as int) != b
            &&& s.slots[b] is None ==> r == DequeueStatus::Order(b as usize) && s1.slots == s.slots && s1.waiting == s.waiting
            &&& s.slots[b] is Some ==> r == DequeueStatus::Taken(s.slots[b]->Some_0)
        }),
{
    lemma_next_slot(s.tail, n);
}

} // verus!

verus! {

/// The ring of `n` slots (a power of two) holds `l` in order, waiting puts
/// included: the first `n` of `l` sit in the slots from the one the tail
/// designates on, the rest are puts waiting, oldest first, each for the slot
/// of the executable `n` places before it; the head designates the slot the
/// next put claims, and every other slot is empty.
pub open spec fn queued_in_order(s: TaskRingState, n: usize, l: Seq<ExecutableTask>) -> bool {
    let b = slot_index(s.tail, n);
    &&& n > 0
    &&& n & (n - 1) as usize == 0
    &&& s.slots.len() == n
    &&& l.len() <= 2 * n
    &&& slot_index(s.head, n) == ring_pos(b, if l.len() < n { l.len() as int } else { l.len() - n }, n as int)
    &&& forall|i: int| 0 <= i < n && i < l.len() ==> #[trigger] s.slots[ring_pos(b, i, n as int)] == Some(l[i])
    &&& forall|i: int| l.len() <= i < n ==> #[trigger] s.slots[ring_pos(b, i, n as int)] is None
    &&& s.waiting.len() == if l.len() > n { l.len() - n } else { 0 }
    &&& forall|k: int| 0 <= k < s.waiting.len() ==> #[trigger] s.waiting[k] == (ring_pos(b, k, n as int) as usize, l[n + k])
}

/// A put behind what the ring holds in order keeps it in order, whether
/// the put finds its slot empty or waits for it.
pub proof fn lemma_queued_put(s: TaskRingState, n: usize, l: Seq<ExecutableTask>, t: ExecutableTask)
    requires
        queued_in_order(s, n, l),
        l.len() < 2 * n,
    ensures
        queued_in_order(s.put(t, n), n, l.push(t)),
{
    lemma_next_slot(s.head, n);
    lemma_next_slot(s.tail, n);
    let b = slot_index(s.tail, n);
    let m = l.len() as int;
    let s1 = s.put(t, n);
    let l1 = l.push(t);
    if m < n {
        assert(s.slots[ring_pos(b, m, n as int)] is None);
        assert forall|i: int| 0 <= i < n && i < l1.len() implies #[trigger] s1.slots[ring_pos(b, i, n as int)] == Some(l1[i]) by {
            if i < m {
                assert(s.slots[ring_pos(b, i, n as int)] == Some(l[i]));
            }
        }
        assert forall|i: int| l1.len() <= i < n implies #[trigger] s1.slots[ring_pos(b, i, n as int)] is None by {
            assert(s.slots[ring_pos(b, i, n as int)] is None);
        }
    } else {
        let k = m - n;
        assert(s.slots[ring_pos(b, k, n as int)] == Some(l[k]));
        assert forall|i: int| 0 <= i < n && i < l1.len() implies #[trigger] s1.slots[ring_pos(b, i, n as int)] == Some(l1[i]) by {
            assert(s.slots[ring_pos(b, i, n as int)] == Some(l[i]));
        }
        assert forall|k2: int| 0 <= k2 < s1.waiting.len() implies #[trigger] s1.waiting[k2] == (ring_pos(b, k2, n as int) as usize, l1[n + k2]) by {
            if k2 < s.waiting.len() {
                assert(s.waiting[k2] == (ring_pos(b, k2, n as int) as usize, l[n + k2]));
            }
        }
    }
}

/// A take from a ring holding `l` in order gives `l[0]` and leaves the
/// rest in order: the oldest put waiting for the emptied slot moves in.
pub proof fn lemma_queued_take(s: TaskRingState, n: usize, l: Seq<ExecutableTask>)
    requires
        queued_in_order(s, n, l),
        l.len() > 0,
    ensures
        s.dequeued(n).1 == DequeueStatus::Taken(l[0]),
        queued_in_order(s.dequeued(n).0, n, l.drop_first()),
{
    lemma_next_slot(s.tail, n);
    let b = slot_index(s.tail, n);
    let b1 = slot_index(next_count(s.tail), n);
    let m = l.len() as int;
    assert(s.slots[ring_pos(b, 0, n as int)] == Some(l[0]));
    let s0 = TaskRingState { tail: next_count(s.tail), ..s };
    let s1 = s.dequeued(n).0;
    let l1 = l.drop_first();
    if s.waiting.len() > 0 {
        assert(s.waiting[0] == (ring_pos(b, 0, n as int) as usize, l[n + 0]));
        assert forall|i: int| 0 <= i < 0 implies #[trigger] s.waiting[i].0 != b as usize by {}
        lemma_first_waiting_at(s.waiting, b as usize, 0);
        assert(s1.slots == s.slots.update(b, Some(l[n as int])));
        assert(s1.waiting == s.waiting.remove(0));
    } else {
        lemma_first_waiting_at(s.waiting, b as usize, 0);
        assert(s1.slots == s.slots.update(b, None));
        assert(s1.waiting == s.waiting);
    }
    assert forall|i: int| 0 <= i < n && i < l1.len() implies #[trigger] s1.slots[ring_pos(b1, i, n as int)] == Some(l1[i]) by {
        assert(ring_pos(b1, i, n as int) == ring_pos(b, i + 1, n as int));
        if i + 1 < n {
            assert(s.slots[ring_pos(b, i + 1, n as int)] == Some(l[i + 1]));
        }
    }
    assert forall|i: int| l1.len() <= i < n implies #[trigger] s1.slots[ring_pos(b1, i, n as int)] is None by {
        assert(ring_pos(b1, i, n as int) == ring_pos(b, i + 1, n as int));
        if i + 1 < n {
            assert(s.slots[ring_pos(b, i + 1, n as int)] is None);
        }
    }
    assert forall|k: int| 0 <= k < s1.waiting.len() implies #[trigger] s1.waiting[k] == (ring_pos(b1, k, n as int) as usize, l1[n + k]) by {
        assert(s1.waiting[k] == s.waiting[k + 1]);
        assert(s.waiting[k + 1] == (ring_pos(b, k + 1, n as int) as usize, l[n + k + 1]));
        assert(ring_pos(b1, k, n as int) == ring_pos(b, k + 1, n as int));
    }
}

/// The ring after each executable of `ts` was put in, in order.
pub open spec fn after_puts(s: TaskRingState, ts: Seq<ExecutableTask>, n: usize) -> TaskRingState
    decreases ts.len(),
{
    if ts.len() == 0 {
        s
    } else {
        after_puts(s, ts.drop_last(), n).put(ts.last(), n)
    }
}

/// First in, first out with waiting puts: a fresh ring of a power-of-two
/// number `n` of slots given up to `2 * n` executables `ts` (those beyond
/// `n` wait for their slots) gives them back in the same order, one per
/// take from the tail.
pub proof fn lemma_task_ring_run_first_in_first_out(ts: Seq<ExecutableTask>, n: usize, k: nat)
    requires
        n > 0,
        n & (n - 1) as usize == 0,
        ts.len() <= 2 * n,
        k < ts.len(),
    ensures
        ({
            let fresh = TaskRingState {
                head: 0,
                tail: 0,
                slots: Seq::new(n as nat, |i: int| None::<ExecutableTask>),
                waiting: Seq::<(usize, ExecutableTask)>::empty(),
            };
            let filled = after_puts(fresh, ts, n);
            let s = after_takes(filled, n, k);
            &&& queued_in_order(filled, n, ts)
            &&& queued_in_order(s, n, ts.skip(k as int))
            &&& s.dequeued(n).1 == DequeueStatus::Taken(ts[k as int])
        }),
{
    let fresh = TaskRingState {
        head: 0,
        tail: 0,
        slots: Seq::new(n as nat, |i: int| None::<ExecutableTask>),
        waiting: Seq::<(usize, ExecutableTask)>::empty(),
    };
    lemma_next_slot(0, n);
    assert(queued_in_order(fresh, n, Seq::empty()));
    lemma_puts_queued(fresh, ts, n);
    let filled = after_puts(fresh, ts, n);
    lemma_takes_queued(filled, ts, n, k);
    let s = after_takes(filled, n, k);
    lemma_queued_take(s, n, ts.skip(k as int));
}

/// The ring after `k` takes from the tail.
pub open spec fn after_takes(s: TaskRingState, n: usize, k: nat) -> TaskRingState
    decreases k,
{
    if k == 0 {
        s
    } else {
        after_takes(s, n, (k - 1) as nat).dequeued(n).0
    }
}

proof fn lemma_puts_queued(s: TaskRingState, ts: Seq<ExecutableTask>, n: usize)
    requires
        queued_in_order(s, n, Seq::empty()),
        ts.len() <= 2 * n,
    ensures
        queued_in_order(after_puts(s, ts, n), n, ts),
    decreases ts.len(),
{
    if ts.len() > 0 {
        lemma_puts_queued(s, ts.drop_last(), n);
        lemma_queued_put(after_puts(s, ts.drop_last(), n), n, ts.drop_last(), ts.last());
        assert(ts.drop_last().push(ts.last()) =~= ts);
    }
}

proof fn lemma_takes_queued(s: TaskRingState, l: Seq<ExecutableTask>, n: usize, k: nat)
    requires
        queued_in_order(s, n, l),
        k <= l.len(),
    ensures
        queued_in_order(after_takes(s, n, k), n, l.skip(k as int)),
    decreases k,
{
    if k == 0 {
        assert(l.skip(0) =~= l);
    } else {
        let k1 = (k - 1) as nat;
        lemma_takes_queued(s, l, n, k1);
        lemma_queued_take(after_takes(s, n, k1), n, l.skip(k1 as int));
        assert(l.skip(k1 as int).drop_first() =~= l.skip(k as int));
    }
}

} // verus!
