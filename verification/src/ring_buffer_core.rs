use vstd::prelude::*;
use vstd::multiset::Multiset;
use crossbeam_queue::SegQueue;
use crate::executable_task::ExecutableTask;

verus! {

/// `crossbeam_queue::SegQueue`, the unbounded queue that holds the
/// secondary list; its contents are only known through `secondary_items`.
#[verifier::external_type_specification]
#[verifier::external_body]
#[verifier::reject_recursive_types(T)]
pub struct ExSegQueue<T>(SegQueue<T>);

/// The items of a `crossbeam_queue::SegQueue` holding the secondary list,
/// from the front (oldest) to the back (newest).
pub uninterp spec fn secondary_items(q: SegQueue<ExecutableTask>) -> Seq<ExecutableTask>;

/// `crossbeam_queue::SegQueue::new`: an empty queue.
#[verifier::external_body]
fn seg_queue_new() -> (q: SegQueue<ExecutableTask>)
    ensures
        secondary_items(q) == Seq::<ExecutableTask>::empty(),
{
    SegQueue::new()
}

/// `crossbeam_queue::SegQueue::push`: appends `t` at the back of the queue.
/// The queue's position counters grow by one per push and are not modelled;
/// they reach their bound only after about 2^63 pushes.
#[verifier::external_body]
fn seg_queue_push(q: &mut SegQueue<ExecutableTask>, t: ExecutableTask)
    ensures
        secondary_items(*final(q)) == secondary_items(*old(q)).push(t),
{
    q.push(t)
}

/// `crossbeam_queue::SegQueue::pop`: removes and returns the front item, or
/// returns `None` when the queue is empty.
#[verifier::external_body]
fn seg_queue_pop(q: &mut SegQueue<ExecutableTask>) -> (r: Option<ExecutableTask>)
    ensures
        match r {
            Some(t) => {
                &&& secondary_items(*old(q)).len() > 0
                &&& t == secondary_items(*old(q))[0]
                &&& secondary_items(*final(q)) == secondary_items(*old(q)).drop_first()
            },
            None => {
                &&& secondary_items(*old(q)).len() == 0
                &&& secondary_items(*final(q)) == secondary_items(*old(q))
            },
        },
{
    q.pop()
}

/// The slot a head or tail counter value designates in a buffer of `n`
/// slots: the low bits of the counter, `counter & (n - 1)`.
pub open spec fn slot_index(counter: u64, n: usize) -> int {
    ((counter as usize) & ((n - 1) as usize)) as int
}

/// A counter after one increment, wrapping around at `u64::MAX`.
pub open spec fn next_count(c: u64) -> u64 {
    if c == u64::MAX {
        0
    } else {
        (c + 1) as u64
    }
}

/// The number of occupied slots.
pub open spec fn occupied(slots: Seq<Option<ExecutableTask>>) -> nat
    decreases slots.len(),
{
    if slots.len() == 0 {
        0
    } else {
        occupied(slots.drop_last()) + if slots.last() is Some { 1nat } else { 0nat }
    }
}

/// The position of the oldest waiting put that targets slot `idx`, or the
/// length of `waiting` when none does.
pub open spec fn first_waiting(waiting: Seq<(usize, ExecutableTask)>, idx: usize) -> nat
    decreases waiting.len(),
{
    if waiting.len() == 0 {
        0
    } else if waiting[0].0 == idx {
        0
    } else {
        1 + first_waiting(waiting.drop_first(), idx)
    }
}

/// The abstract state of a ring buffer.
pub struct RingBufferState {
    /// How many executables were registered so far (wrapping).
    pub in_task: u64,
    /// The counter that designates the next slot to fill (wrapping).
    pub head: u64,
    /// The counter that designates the next slot to take from (wrapping).
    pub tail: u64,
    /// The content of each slot.
    pub slots: Seq<Option<ExecutableTask>>,
    /// Occupied slots plus puts that wait for their slot to be emptied.
    pub registered: usize,
    /// Puts that found their slot occupied, oldest first, with their slot.
    pub waiting: Seq<(usize, ExecutableTask)>,
    /// Executables that did not fit in the ring, oldest first.
    pub secondary: Seq<ExecutableTask>,
}

impl RingBufferState {
    /// Slots and counters agree: the slot count is `n`, `registered` counts
    /// the occupied slots and the waiting puts, and every waiting put targets
    /// an occupied slot.
    pub open spec fn wf(self, n: usize) -> bool {
        &&& self.slots.len() == n
        &&& n <= usize::MAX / 2
        &&& self.registered == occupied(self.slots) + self.waiting.len()
        &&& self.waiting.len() <= n
        &&& forall|k: int| 0 <= k < self.waiting.len() ==> {
            &&& #[trigger] self.waiting[k].0 < n
            &&& self.slots[self.waiting[k].0 as int] is Some
        }
    }

    /// Puts `t` in slot `idx`, or, when that slot is occupied, leaves the put
    /// waiting for it.
    pub open spec fn place(self, idx: int, t: ExecutableTask) -> RingBufferState {
        if self.slots[idx] is None {
            RingBufferState { slots: self.slots.update(idx, Some(t)), ..self }
        } else {
            RingBufferState { waiting: self.waiting.push((idx as usize, t)), ..self }
        }
    }

    /// Registers `t` in the ring: it claims the slot the head designates.
    pub open spec fn put_in_ring(self, t: ExecutableTask, n: usize) -> RingBufferState {
        RingBufferState {
            in_task: next_count(self.in_task),
            head: next_count(self.head),
            registered: (self.registered + 1) as usize,
            ..self
        }.place(slot_index(self.head, n), t)
    }

    /// Registers `t` in the secondary list.
    pub open spec fn spill(self, t: ExecutableTask) -> RingBufferState {
        RingBufferState {
            in_task: next_count(self.in_task),
            secondary: self.secondary.push(t),
            ..self
        }
    }

    /// Empties slot `idx`; the oldest put waiting for it, if any, fills it.
    pub open spec fn take_from_slot(self, idx: int) -> RingBufferState {
        let k = first_waiting(self.waiting, idx as usize) as int;
        if k < self.waiting.len() {
            RingBufferState {
                slots: self.slots.update(idx, Some(self.waiting[k].1)),
                waiting: self.waiting.remove(k),
                registered: (self.registered - 1) as usize,
                ..self
            }
        } else {
            RingBufferState {
                slots: self.slots.update(idx, None),
                registered: (self.registered - 1) as usize,
                ..self
            }
        }
    }
}

pub proof fn lemma_occupied_update(slots: Seq<Option<ExecutableTask>>, i: int, v: Option<ExecutableTask>)
    requires
        0 <= i < slots.len(),
    ensures
        occupied(slots.update(i, v)) + (if slots[i] is Some { 1nat } else { 0nat }) == occupied(slots)
            + (if v is Some { 1nat } else { 0nat }),
    decreases slots.len(),
{
    if i == slots.len() - 1 {
        assert(slots.update(i, v).drop_last() =~= slots.drop_last());
    } else {
        lemma_occupied_update(slots.drop_last(), i, v);
        assert(slots.update(i, v).drop_last() =~= slots.drop_last().update(i, v));
    }
}

pub proof fn lemma_occupied_le(slots: Seq<Option<ExecutableTask>>)
    ensures
        occupied(slots) <= slots.len(),
    decreases slots.len(),
{
    if slots.len() > 0 {
        lemma_occupied_le(slots.drop_last());
    }
}

pub proof fn lemma_occupied_none(n: nat)
    ensures
        occupied(Seq::new(n, |i: int| None::<ExecutableTask>)) == 0,
    decreases n,
{
    if n > 0 {
        lemma_occupied_none((n - 1) as nat);
        assert(Seq::new(n, |i: int| None::<ExecutableTask>).drop_last() =~= Seq::new(
            (n - 1) as nat,
            |i: int| None::<ExecutableTask>,
        ));
    }
}

pub proof fn lemma_first_waiting(waiting: Seq<(usize, ExecutableTask)>, idx: usize)
    ensures
        first_waiting(waiting, idx) <= waiting.len(),
        forall|i: int| 0 <= i < first_waiting(waiting, idx) ==> #[trigger] waiting[i].0 != idx,
        first_waiting(waiting, idx) < waiting.len() ==> waiting[first_waiting(waiting, idx) as int].0 == idx,
    decreases waiting.len(),
{
    if waiting.len() > 0 && waiting[0].0 != idx {
        lemma_first_waiting(waiting.drop_first(), idx);
        assert forall|i: int| 0 <= i < first_waiting(waiting, idx) implies #[trigger] waiting[i].0 != idx by {
            if i > 0 {
                assert(waiting[i] == waiting.drop_first()[i - 1]);
            }
        }
    }
}

/// The first position whose put targets `idx` is the value of
/// `first_waiting`.
pub proof fn lemma_first_waiting_at(waiting: Seq<(usize, ExecutableTask)>, idx: usize, k: int)
    requires
        0 <= k <= waiting.len(),
        forall|i: int| 0 <= i < k ==> #[trigger] waiting[i].0 != idx,
        k < waiting.len() ==> waiting[k].0 == idx,
    ensures
        first_waiting(waiting, idx) == k,
{
    lemma_first_waiting(waiting, idx);
    let f = first_waiting(waiting, idx) as int;
    if f < k {
        assert(waiting[f].0 != idx);
    } else if k < f {
        assert(waiting[k].0 != idx);
    }
}

} // verus!

verus! {

/// What a take from the ring found.
#[derive(Clone, Copy, Debug, PartialEq, Eq, Structural)]
pub enum DequeueStatus {
    /// The slot held this executable, which is now taken.
    Taken(ExecutableTask),
    /// The slot was empty: the caller keeps this slot index and checks it
    /// again later with `dequeue_via_order`.
    Order(usize),
}

/// One slot of the ring.
pub struct RingBufferSpace {
    /// The executable stored here, if any.
    pub(crate) task: Option<ExecutableTask>,
    /// Whether the slot is empty.
    pub(crate) empty: bool,
}

impl RingBufferSpace {
    /// An empty slot.
    fn new() -> (r: RingBufferSpace)
        ensures
            r.task is None,
            r.empty,
    {
        RingBufferSpace { task: None, empty: true }
    }
}

/// A fixed ring of `RING_BUFFER_SIZE` slots holding the executables to run,
/// with an unbounded secondary list for what does not fit.
///
/// Producers claim slots through `head` and consumers through `tail`; the
/// slot a counter designates is its value masked by `RING_BUFFER_SIZE - 1`.
/// `registered_count` counts the executables held by the ring: occupied
/// slots plus puts that claimed a slot while it was still occupied and wait
/// for it to be emptied. When the ring is full, `enqueue` uses the secondary
/// list instead.
pub struct RingBufferCore<const RING_BUFFER_SIZE: usize> {
    in_task: u64,
    head: u64,
    tail: u64,
    queue: Vec<RingBufferSpace>,
    registered_count: usize,
    waiting: Vec<(usize, ExecutableTask)>,
    secondary_list: SegQueue<ExecutableTask>,
}

impl<const RING_BUFFER_SIZE: usize> View for RingBufferCore<RING_BUFFER_SIZE> {
    type V = RingBufferState;

    closed spec fn view(&self) -> RingBufferState {
        RingBufferState {
            in_task: self.in_task,
            head: self.head,
            tail: self.tail,
            slots: self.queue@.map_values(|s: RingBufferSpace| s.task),
            registered: self.registered_count,
            waiting: self.waiting@,
            secondary: secondary_items(self.secondary_list),
        }
    }
}

impl<const RING_BUFFER_SIZE: usize> RingBufferCore<RING_BUFFER_SIZE> {
    /// The abstract state is consistent and each slot's `empty` flag agrees
    /// with its content.
    pub closed spec fn wf(&self) -> bool {
        &&& self@.wf(RING_BUFFER_SIZE)
        &&& forall|i: int| 0 <= i < self.queue@.len() ==> #[trigger] self.queue@[i].empty == (self.queue@[i].task is None)
    }

    /// A consistent ring buffer has a consistent abstract state.
    pub proof fn lemma_view_wf(&self)
        requires
            self.wf(),
        ensures
            self@.wf(RING_BUFFER_SIZE),
    {
    }

    /// An empty ring of `RING_BUFFER_SIZE` slots.
    pub fn new() -> (r: Self)
        requires
            RING_BUFFER_SIZE <= usize::MAX / 2,
        ensures
            r.wf(),
            r@ == (RingBufferState {
                in_task: 0,
                head: 0,
                tail: 0,
                slots: Seq::new(RING_BUFFER_SIZE as nat, |i: int| None::<ExecutableTask>),
                registered: 0,
                waiting: Seq::<(usize, ExecutableTask)>::empty(),
                secondary: Seq::<ExecutableTask>::empty(),
            }),
    {
        let mut queue: Vec<RingBufferSpace> = Vec::with_capacity(RING_BUFFER_SIZE);
        let mut i: usize = 0;
        while i < RING_BUFFER_SIZE
            invariant
                i <= RING_BUFFER_SIZE,
                queue@.len() == i,
                forall|k: int| 0 <= k < i ==> (#[trigger] queue@[k]).task is None && queue@[k].empty,
            decreases RING_BUFFER_SIZE - i,
        {
            queue.push(RingBufferSpace::new());
            i = i + 1;
        }
        let r = RingBufferCore {
            in_task: 0,
            head: 0,
            tail: 0,
            queue,
            registered_count: 0,
            waiting: Vec::new(),
            secondary_list: seg_queue_new(),
        };
        proof {
            assert(r@.slots =~= Seq::new(RING_BUFFER_SIZE as nat, |i: int| None::<ExecutableTask>));
            lemma_occupied_none(RING_BUFFER_SIZE as nat);
        }
        r
    }

    /// How many executables were registered so far (wrapping).
    pub fn in_task(&self) -> (r: u64)
        ensures
            r == self@.in_task,
    {
        self.in_task
    }

    /// How many executables the ring holds.
    pub fn registered_count(&self) -> (r: usize)
        ensures
            r == self@.registered,
    {
        self.registered_count
    }

    /// The content of slot `idx`.
    pub fn slot(&self, idx: usize) -> (r: Option<ExecutableTask>)
        requires
            idx < self@.slots.len(),
        ensures
            r == self@.slots[idx as int],
    {
        self.queue[idx].task
    }

    /// The number of puts waiting for their slot to be emptied.
    pub fn waiting_count(&self) -> (r: usize)
        ensures
            r == self@.waiting.len(),
    {
        self.waiting.len()
    }

    /// The slot index that `counter` designates.
    fn index_of(counter: u64) -> (r: usize)
        requires
            RING_BUFFER_SIZE > 0,
        ensures
            r == slot_index(counter, RING_BUFFER_SIZE),
            r < RING_BUFFER_SIZE,
    {
        let m: usize = RING_BUFFER_SIZE - 1;
        let c: usize = counter as usize;
        assert(c & m <= m) by (bit_vector);
        c & m
    }

    /// `c + 1`, wrapping around at `u64::MAX`.
    fn bump(c: u64) -> (r: u64)
        ensures
            r == next_count(c),
    {
        if c == u64::MAX {
            0
        } else {
            c + 1
        }
    }

    /// Puts `t` in slot `idx`, or leaves the put waiting when the slot is
    /// occupied.
    fn place(&mut self, idx: usize, t: ExecutableTask)
        requires
            idx < RING_BUFFER_SIZE,
            old(self)@.slots.len() == RING_BUFFER_SIZE,
            forall|i: int| 0 <= i < old(self).queue@.len() ==> #[trigger] old(self).queue@[i].empty == (old(self).queue@[i].task is None),
        ensures
            final(self)@ == old(self)@.place(idx as int, t),
            forall|i: int| 0 <= i < final(self).queue@.len() ==> #[trigger] final(self).queue@[i].empty == (final(self).queue@[i].task is None),
    {
        if self.queue[idx].empty {
            self.queue[idx] = RingBufferSpace { task: Some(t), empty: false };
            assert(self@.slots =~= old(self)@.slots.update(idx as int, Some(t)));
        } else {
            self.waiting.push((idx, t));
        }
    }

    /// Claims the slot the head designates for `t`.
    fn put_in_ring(&mut self, t: ExecutableTask)
        requires
            old(self).wf(),
            RING_BUFFER_SIZE > 0,
            old(self)@.registered < RING_BUFFER_SIZE,
        ensures
            final(self).wf(),
            final(self)@ == old(self)@.put_in_ring(t, RING_BUFFER_SIZE),
    {
        self.registered_count = self.registered_count + 1;
        self.in_task = Self::bump(self.in_task);
        let idx = Self::index_of(self.head);
        self.head = Self::bump(self.head);
        self.place(idx, t);
        proof {
            let s0 = old(self)@;
            if s0.slots[idx as int] is None {
                lemma_occupied_update(s0.slots, idx as int, Some(t));
                assert forall|k: int| 0 <= k < self@.waiting.len() implies {
                    &&& #[trigger] self@.waiting[k].0 < RING_BUFFER_SIZE
                    &&& self@.slots[self@.waiting[k].0 as int] is Some
                } by {
                    assert(s0.waiting[k].0 < RING_BUFFER_SIZE);
                }
            } else {
                assert forall|k: int| 0 <= k < self@.waiting.len() implies {
                    &&& #[trigger] self@.waiting[k].0 < RING_BUFFER_SIZE
                    &&& self@.slots[self@.waiting[k].0 as int] is Some
                } by {
                    if k < s0.waiting.len() {
                        assert(self@.waiting[k] == s0.waiting[k]);
                    }
                }
            }
        }
    }

    /// Puts an executable into the ring.
    ///
    /// When the ring holds `RING_BUFFER_SIZE` executables or more, the
    /// executable goes to the secondary list instead. Otherwise it claims the
    /// slot the head designates; if that slot is still occupied, the put
    /// waits there and completes as soon as the slot is emptied.
    pub fn enqueue(&mut self, executable_task: ExecutableTask)
        requires
            old(self).wf(),
        ensures
            final(self).wf(),
            final(self)@ == old(self)@.enqueued(executable_task, RING_BUFFER_SIZE),
            final(self)@.tail == old(self)@.tail,
            final(self)@.in_task == next_count(old(self)@.in_task),
            old(self)@.registered < RING_BUFFER_SIZE ==> {
                &&& final(self)@.head == next_count(old(self)@.head)
                &&& final(self)@.registered == old(self)@.registered + 1
                &&& final(self)@.secondary == old(self)@.secondary
                &&& old(self)@.slots[slot_index(old(self)@.head, RING_BUFFER_SIZE)] is None ==> final(self)@.slots
                    == old(self)@.slots.update(slot_index(old(self)@.head, RING_BUFFER_SIZE), Some(executable_task))
                &&& old(self)@.slots[slot_index(old(self)@.head, RING_BUFFER_SIZE)] is Some ==> final(self)@.waiting
                    == old(self)@.waiting.push((slot_index(old(self)@.head, RING_BUFFER_SIZE) as usize, executable_task))
            },
            old(self)@.registered >= RING_BUFFER_SIZE ==> {
                &&& final(self)@.head == old(self)@.head
                &&& final(self)@.slots == old(self)@.slots
                &&& final(self)@.secondary == old(self)@.secondary.push(executable_task)
            },
    {
        if self.registered_count >= RING_BUFFER_SIZE {
            self.secondary_push(executable_task);
            return;
        }
        self.put_in_ring(executable_task);
    }

    /// Puts an executable into the ring only: when the ring holds
    /// `RING_BUFFER_SIZE` executables or more, nothing changes and an error
    /// is returned.
    pub fn try_enqueue(&mut self, executable_task: ExecutableTask) -> (r: Result<(), &'static str>)
        requires
            old(self).wf(),
        ensures
            final(self).wf(),
            r is Err <==> old(self)@.registered >= RING_BUFFER_SIZE,
            r is Err ==> final(self)@ == old(self)@ && r->Err_0@ == "Cannot insert task because ring buffer is full"@,
            r is Ok ==> final(self)@ == old(self)@.put_in_ring(executable_task, RING_BUFFER_SIZE),
    {
        if self.registered_count >= RING_BUFFER_SIZE {
            return Err("Cannot insert task because ring buffer is full");
        }
        self.put_in_ring(executable_task);
        Ok(())
    }

    /// Puts an executable into the slot the head designates without ever
    /// waiting: an empty slot takes it, and an occupied slot trades its
    /// executable for it and hands the old one back.
    pub fn enqueue_or_swap(&mut self, executable_task: ExecutableTask) -> (r: Option<ExecutableTask>)
        requires
            old(self).wf(),
            RING_BUFFER_SIZE > 0,
        ensures
            final(self).wf(),
            r == old(self)@.slots[slot_index(old(self)@.head, RING_BUFFER_SIZE)],
            final(self)@ == old(self)@.swapped(executable_task, RING_BUFFER_SIZE),
            final(self)@.head == next_count(old(self)@.head),
            final(self)@.tail == old(self)@.tail,
            final(self)@.slots == old(self)@.slots.update(slot_index(old(self)@.head, RING_BUFFER_SIZE), Some(executable_task)),
    {
        self.in_task = Self::bump(self.in_task);
        let idx = Self::index_of(self.head);
        self.head = Self::bump(self.head);
        let ghost s0 = old(self)@;
        proof {
            lemma_occupied_le(s0.slots);
            lemma_occupied_update(s0.slots, idx as int, Some(executable_task));
        }
        if !self.queue[idx].empty {
            let prev = self.queue[idx].task;
            self.queue[idx] = RingBufferSpace { task: Some(executable_task), empty: false };
            proof {
                assert(self@.slots =~= s0.slots.update(idx as int, Some(executable_task)));
                assert forall|k: int| 0 <= k < self@.waiting.len() implies {
                    &&& #[trigger] self@.waiting[k].0 < RING_BUFFER_SIZE
                    &&& self@.slots[self@.waiting[k].0 as int] is Some
                } by {
                    assert(s0.waiting[k].0 < RING_BUFFER_SIZE);
                }
            }
            prev
        } else {
            self.queue[idx] = RingBufferSpace { task: Some(executable_task), empty: false };
            self.registered_count = self.registered_count + 1;
            proof {
                assert(self@.slots =~= s0.slots.update(idx as int, Some(executable_task)));
                assert forall|k: int| 0 <= k < self@.waiting.len() implies {
                    &&& #[trigger] self@.waiting[k].0 < RING_BUFFER_SIZE
                    &&& self@.slots[self@.waiting[k].0 as int] is Some
                } by {
                    assert(s0.waiting[k].0 < RING_BUFFER_SIZE);
                }
            }
            None
        }
    }

    /// Puts an executable directly into the secondary list.
    pub fn secondary_push(&mut self, executable_task: ExecutableTask)
        requires
            old(self).wf(),
        ensures
            final(self).wf(),
            final(self)@ == old(self)@.spill(executable_task),
    {
        self.in_task = Self::bump(self.in_task);
        seg_queue_push(&mut self.secondary_list, executable_task);
    }

    /// Takes the oldest executable of the secondary list, if any.
    pub fn secondary_pop(&mut self) -> (r: Option<ExecutableTask>)
        requires
            old(self).wf(),
        ensures
            final(self).wf(),
            (final(self)@, r) == old(self)@.secondary_popped(),
    {
        seg_queue_pop(&mut self.secondary_list)
    }

    /// Takes the executable in slot `idx`, which must be occupied; the
    /// oldest put waiting for that slot, if any, fills it again.
    fn take_from_slot(&mut self, idx: usize) -> (r: ExecutableTask)
        requires
            old(self).wf(),
            idx < RING_BUFFER_SIZE,
            old(self)@.slots[idx as int] is Some,
        ensures
            final(self).wf(),
            Some(r) == old(self)@.slots[idx as int],
            final(self)@ == old(self)@.take_from_slot(idx as int),
    {
        let ghost s0 = self@;
        let r = match self.queue[idx].task {
            Some(t) => t,
            None => {
                assert(s0.slots[idx as int] == self.queue@[idx as int].task);
                assert(false);
                ExecutableTask::Dummy
            },
        };
        assert(s0.slots[idx as int] == self.queue@[idx as int].task);
        let n = self.waiting.len();
        let mut k: usize = 0;
        while k < n
            invariant
                n == self.waiting@.len(),
                self@ == s0,
                k <= n,
                forall|i: int| 0 <= i < k ==> #[trigger] self.waiting@[i].0 != idx,
            ensures
                k <= n,
                self@ == s0,
                forall|i: int| 0 <= i < k ==> #[trigger] self.waiting@[i].0 != idx,
                k < n ==> self.waiting@[k as int].0 == idx,
            decreases n - k,
        {
            if self.waiting[k].0 == idx {
                break;
            }
            k = k + 1;
        }
        proof {
            lemma_first_waiting_at(s0.waiting, idx, k as int);
            lemma_occupied_le(s0.slots);
        }
        if k < n {
            let (_, w) = self.waiting.remove(k);
            self.queue[idx] = RingBufferSpace { task: Some(w), empty: false };
            proof {
                assert(self@.slots =~= s0.slots.update(idx as int, Some(w)));
                lemma_occupied_update(s0.slots, idx as int, Some(w));
            }
        } else {
            self.queue[idx] = RingBufferSpace { task: None, empty: true };
            proof {
                assert(self@.slots =~= s0.slots.update(idx as int, None));
                lemma_occupied_update(s0.slots, idx as int, None);
            }
        }
        self.registered_count = self.registered_count - 1;
        proof {
            let s1 = self@;
            assert forall|j: int| 0 <= j < s1.waiting.len() implies {
                &&& #[trigger] s1.waiting[j].0 < RING_BUFFER_SIZE
                &&& s1.slots[s1.waiting[j].0 as int] is Some
            } by {
                if k < n {
                    if j < k {
                        assert(s1.waiting[j] == s0.waiting[j]);
                    } else {
                        assert(s1.waiting[j] == s0.waiting[j + 1]);
                    }
                } else {
                    assert(s1.waiting[j] == s0.waiting[j]);
                    assert(s0.waiting[j].0 != idx);
                }
            }
            assert(s1 == s0.take_from_slot(idx as int));
        }
        r
    }

    /// Takes from the slot the tail designates; the tail moves on either way.
    ///
    /// An occupied slot gives up its executable. An empty slot gives
    /// `Order(idx)`: the caller keeps `idx` and checks it again with
    /// `dequeue_via_order` until a producer has filled it.
    pub fn dequeue(&mut self) -> (r: DequeueStatus)
        requires
            old(self).wf(),
            RING_BUFFER_SIZE > 0,
        ensures
            final(self).wf(),
            (final(self)@, r) == old(self)@.dequeued(RING_BUFFER_SIZE),
            final(self)@.tail == next_count(old(self)@.tail),
            final(self)@.head == old(self)@.head,
            old(self)@.slots[slot_index(old(self)@.tail, RING_BUFFER_SIZE)] is None ==> {
                &&& r == DequeueStatus::Order(slot_index(old(self)@.tail, RING_BUFFER_SIZE) as usize)
                &&& final(self)@.slots == old(self)@.slots
            },
            old(self)@.slots[slot_index(old(self)@.tail, RING_BUFFER_SIZE)] is Some ==>
                r == DequeueStatus::Taken(old(self)@.slots[slot_index(old(self)@.tail, RING_BUFFER_SIZE)]->Some_0),
    {
        let idx = Self::index_of(self.tail);
        self.tail = Self::bump(self.tail);
        if self.queue[idx].empty {
            return DequeueStatus::Order(idx);
        }
        let t = self.take_from_slot(idx);
        DequeueStatus::Taken(t)
    }

    /// Takes from slot `idx`, reserved earlier by `dequeue`: an occupied slot
    /// gives up its executable, an empty one gives `Order(idx)` again.
    pub fn dequeue_via_order(&mut self, idx: usize) -> (r: DequeueStatus)
        requires
            old(self).wf(),
            idx < RING_BUFFER_SIZE,
        ensures
            final(self).wf(),
            (final(self)@, r) == old(self)@.taken_at(idx as int),
    {
        if self.queue[idx].empty {
            return DequeueStatus::Order(idx);
        }
        let t = self.take_from_slot(idx);
        DequeueStatus::Taken(t)
    }

    /// Drops every executable the ring holds, including the puts waiting for
    /// their slot; the counters and the secondary list stay as they are.
    pub fn drop_queue(&mut self)
        requires
            old(self).wf(),
        ensures
            final(self).wf(),
            final(self)@ == (RingBufferState {
                slots: Seq::new(RING_BUFFER_SIZE as nat, |i: int| None::<ExecutableTask>),
                registered: 0,
                waiting: Seq::<(usize, ExecutableTask)>::empty(),
                ..old(self)@
            }),
    {
        let mut i: usize = 0;
        while i < RING_BUFFER_SIZE
            invariant
                i <= RING_BUFFER_SIZE,
                self.queue@.len() == RING_BUFFER_SIZE,
                self.in_task == old(self).in_task,
                self.head == old(self).head,
                self.tail == old(self).tail,
                self.secondary_list == old(self).secondary_list,
                forall|k: int| 0 <= k < i ==> (#[trigger] self.queue@[k]).task is None && self.queue@[k].empty,
            decreases RING_BUFFER_SIZE - i,
        {
            self.queue[i] = RingBufferSpace::new();
            i = i + 1;
        }
        self.waiting = Vec::new();
        self.registered_count = 0;
        proof {
            assert(self@.slots =~= Seq::new(RING_BUFFER_SIZE as nat, |i: int| None::<ExecutableTask>));
            lemma_occupied_none(RING_BUFFER_SIZE as nat);
        }
    }
}

} // verus!

verus! {

/// The executables in a sequence of slots.
pub open spec fn slot_tasks(slots: Seq<Option<ExecutableTask>>) -> Multiset<ExecutableTask>
    decreases slots.len(),
{
    if slots.len() == 0 {
        Multiset::empty()
    } else {
        slot_tasks(slots.drop_last()).add(option_tasks(slots.last()))
    }
}

/// The executable an optional slot content holds, as a multiset.
pub open spec fn option_tasks(o: Option<ExecutableTask>) -> Multiset<ExecutableTask> {
    match o {
        Some(t) => Multiset::singleton(t),
        None => Multiset::empty(),
    }
}

/// The executables of waiting puts.
pub open spec fn waiting_tasks(waiting: Seq<(usize, ExecutableTask)>) -> Multiset<ExecutableTask> {
    waiting.map_values(|e: (usize, ExecutableTask)| e.1).to_multiset()
}

impl RingBufferState {
    /// Every executable the ring buffer holds: in its slots, in the puts
    /// waiting for a slot, and in the secondary list.
    pub open spec fn contents(self) -> Multiset<ExecutableTask> {
        slot_tasks(self.slots).add(waiting_tasks(self.waiting)).add(self.secondary.to_multiset())
    }

    /// Takes from slot `idx`: an occupied slot gives up its executable, an
    /// empty slot reports its index and nothing changes.
    pub open spec fn taken_at(self, idx: int) -> (RingBufferState, DequeueStatus) {
        match self.slots[idx] {
            Some(t) => (self.take_from_slot(idx), DequeueStatus::Taken(t)),
            None => (self, DequeueStatus::Order(idx as usize)),
        }
    }

    /// Takes from the slot the tail designates; the tail moves on either way.
    pub open spec fn dequeued(self, n: usize) -> (RingBufferState, DequeueStatus) {
        RingBufferState { tail: next_count(self.tail), ..self }.taken_at(slot_index(self.tail, n))
    }

    /// Takes the oldest executable of the secondary list, if any.
    pub open spec fn secondary_popped(self) -> (RingBufferState, Option<ExecutableTask>) {
        if self.secondary.len() == 0 {
            (self, None)
        } else {
            (RingBufferState { secondary: self.secondary.drop_first(), ..self }, Some(self.secondary[0]))
        }
    }

    /// The state after `enqueue_or_swap(t)`: the slot the head designates
    /// holds `t`, whatever it held before.
    pub open spec fn swapped(self, t: ExecutableTask, n: usize) -> RingBufferState {
        let idx = slot_index(self.head, n);
        RingBufferState {
            in_task: next_count(self.in_task),
            head: next_count(self.head),
            slots: self.slots.update(idx, Some(t)),
            registered: if self.slots[idx] is None { (self.registered + 1) as usize } else { self.registered },
            ..self
        }
    }

    /// The state after `enqueue(t)`.
    pub open spec fn enqueued(self, t: ExecutableTask, n: usize) -> RingBufferState {
        if self.registered >= n {
            self.spill(t)
        } else {
            self.put_in_ring(t, n)
        }
    }
}

pub proof fn lemma_slot_tasks_update(slots: Seq<Option<ExecutableTask>>, i: int, v: Option<ExecutableTask>)
    requires
        0 <= i < slots.len(),
    ensures
        slot_tasks(slots.update(i, v)).add(option_tasks(slots[i])) =~= slot_tasks(slots).add(option_tasks(v)),
    decreases slots.len(),
{
    broadcast use vstd::multiset::group_multiset_axioms;
    let u = slots.update(i, v);
    if i == slots.len() - 1 {
        assert(u.drop_last() =~= slots.drop_last());
        assert(slot_tasks(u) == slot_tasks(slots.drop_last()).add(option_tasks(v)));
        assert(slot_tasks(slots) == slot_tasks(slots.drop_last()).add(option_tasks(slots[i])));
    } else {
        lemma_slot_tasks_update(slots.drop_last(), i, v);
        assert(u.drop_last() =~= slots.drop_last().update(i, v));
        assert(slot_tasks(u) == slot_tasks(slots.drop_last().update(i, v)).add(option_tasks(slots.last())));
        assert(slot_tasks(slots) == slot_tasks(slots.drop_last()).add(option_tasks(slots.last())));
        let a = slot_tasks(slots.drop_last().update(i, v));
        let b = slot_tasks(slots.drop_last());
        assert forall|x: ExecutableTask| #[trigger] slot_tasks(u).add(option_tasks(slots[i])).count(x)
            == slot_tasks(slots).add(option_tasks(v)).count(x) by {
            assert(a.add(option_tasks(slots.drop_last()[i])).count(x) == b.add(option_tasks(v)).count(x));
        }
    }
}

pub proof fn lemma_waiting_tasks_push(waiting: Seq<(usize, ExecutableTask)>, e: (usize, ExecutableTask))
    ensures
        waiting_tasks(waiting.push(e)) =~= waiting_tasks(waiting).insert(e.1),
{
    broadcast use vstd::seq_lib::group_to_multiset_ensures;
    let f = |x: (usize, ExecutableTask)| x.1;
    assert(waiting.push(e).map_values(f) =~= waiting.map_values(f).push(e.1));
}

pub proof fn lemma_waiting_tasks_remove(waiting: Seq<(usize, ExecutableTask)>, k: int)
    requires
        0 <= k < waiting.len(),
    ensures
        waiting_tasks(waiting.remove(k)) =~= waiting_tasks(waiting).remove(waiting[k].1),
{
    broadcast use vstd::seq_lib::group_to_multiset_ensures;
    let f = |x: (usize, ExecutableTask)| x.1;
    assert(waiting.remove(k).map_values(f) =~= waiting.map_values(f).remove(k));
    assert(waiting.map_values(f)[k] == waiting[k].1);
}

/// `enqueue` keeps every executable the ring buffer held and adds the new
/// one: nothing is lost or duplicated, whether it lands in a slot, waits for
/// one, or goes to the secondary list.
pub proof fn lemma_enqueue_keeps_every_executable(s: RingBufferState, t: ExecutableTask, n: usize)
    requires
        s.wf(n),
        s.registered < n ==> n > 0,
    ensures
        s.enqueued(t, n).contents() =~= s.contents().insert(t),
{
    broadcast use vstd::multiset::group_multiset_axioms;
    broadcast use vstd::seq_lib::group_to_multiset_ensures;
    if s.registered >= n {
    } else {
        lemma_put_keeps_every_executable(s, t, n);
    }
}

/// Registering an executable in the ring adds exactly that executable.
pub proof fn lemma_put_keeps_every_executable(s: RingBufferState, t: ExecutableTask, n: usize)
    requires
        s.wf(n),
        n > 0,
    ensures
        s.put_in_ring(t, n).contents() =~= s.contents().insert(t),
{
    broadcast use vstd::multiset::group_multiset_axioms;
    let idx = slot_index(s.head, n);
    assert(idx < n) by {
        let c = s.head as usize;
        let m = (n - 1) as usize;
        assert(c & m <= m) by (bit_vector);
    }
    let s1 = s.put_in_ring(t, n);
    if s.slots[idx] is None {
        lemma_slot_tasks_update(s.slots, idx, Some(t));
        assert(s1.slots == s.slots.update(idx, Some(t)));
        assert(s1.waiting == s.waiting);
    } else {
        lemma_waiting_tasks_push(s.waiting, (idx as usize, t));
        assert(s1.slots == s.slots);
        assert(s1.waiting == s.waiting.push((idx as usize, t)));
    }
    assert(s1.secondary == s.secondary);
    assert forall|x: ExecutableTask| #[trigger] s1.contents().count(x) == s.contents().insert(t).count(x) by {
        if s.slots[idx] is None {
            assert(slot_tasks(s1.slots).add(option_tasks(s.slots[idx])).count(x)
                == slot_tasks(s.slots).add(option_tasks(Some(t))).count(x));
        } else {
            assert(waiting_tasks(s1.waiting).count(x) == waiting_tasks(s.waiting).insert(t).count(x));
        }
    }
}

/// Taking from an occupied slot removes exactly the executable it held; a
/// waiting put that moves into the slot stays in the ring buffer.
pub proof fn lemma_take_removes_only_taken(s: RingBufferState, n: usize, idx: int)
    requires
        s.wf(n),
        0 <= idx < n,
        s.slots[idx] is Some,
    ensures
        s.take_from_slot(idx).contents().insert(s.slots[idx]->Some_0) =~= s.contents(),
{
    broadcast use vstd::multiset::group_multiset_axioms;
    let k = first_waiting(s.waiting, idx as usize) as int;
    lemma_first_waiting(s.waiting, idx as usize);
    let s1 = s.take_from_slot(idx);
    let t = s.slots[idx]->Some_0;
    if k < s.waiting.len() {
        lemma_slot_tasks_update(s.slots, idx, Some(s.waiting[k].1));
        lemma_waiting_tasks_remove(s.waiting, k);
        lemma_waiting_contains(s.waiting, k);
    } else {
        lemma_slot_tasks_update(s.slots, idx, None);
    }
    assert(s1.secondary == s.secondary);
    assert forall|x: ExecutableTask| #[trigger] s1.contents().insert(t).count(x) == s.contents().count(x) by {
        if k < s.waiting.len() {
            let w = s.waiting[k].1;
            assert(slot_tasks(s1.slots).add(option_tasks(s.slots[idx])).count(x)
                == slot_tasks(s.slots).add(option_tasks(Some(w))).count(x));
            assert(waiting_tasks(s1.waiting).count(x) == waiting_tasks(s.waiting).remove(w).count(x));
        } else {
            assert(slot_tasks(s1.slots).add(option_tasks(s.slots[idx])).count(x)
                == slot_tasks(s.slots).add(option_tasks(None)).count(x));
        }
    }
}

/// `enqueue_or_swap` holds the new executable plus everything the ring
/// buffer held, less the executable it hands back.
pub proof fn lemma_swap_keeps_every_executable(s: RingBufferState, t: ExecutableTask, n: usize)
    requires
        s.wf(n),
        n > 0,
    ensures
        s.swapped(t, n).contents().add(option_tasks(s.slots[slot_index(s.head, n)])) =~= s.contents().insert(t),
{
    broadcast use vstd::multiset::group_multiset_axioms;
    let idx = slot_index(s.head, n);
    assert(idx < n) by {
        let c = s.head as usize;
        let m = (n - 1) as usize;
        assert(c & m <= m) by (bit_vector);
    }
    let s1 = s.swapped(t, n);
    lemma_slot_tasks_update(s.slots, idx, Some(t));
    assert forall|x: ExecutableTask| #[trigger] s1.contents().add(option_tasks(s.slots[idx])).count(x)
        == s.contents().insert(t).count(x) by {
        assert(slot_tasks(s1.slots).add(option_tasks(s.slots[idx])).count(x)
            == slot_tasks(s.slots).add(option_tasks(Some(t))).count(x));
    }
}

/// Taking the oldest executable of the secondary list removes exactly that
/// executable.
pub proof fn lemma_secondary_pop_removes_only_taken(s: RingBufferState)
    requires
        s.secondary.len() > 0,
    ensures
        (RingBufferState { secondary: s.secondary.drop_first(), ..s }).contents().insert(s.secondary[0])
            =~= s.contents(),
{
    broadcast use vstd::multiset::group_multiset_axioms;
    broadcast use vstd::seq_lib::group_to_multiset_ensures;
    assert(s.secondary.drop_first() =~= s.secondary.remove(0));
    let s1 = RingBufferState { secondary: s.secondary.drop_first(), ..s };
    assert(s.secondary.contains(s.secondary[0]));
    assert forall|x: ExecutableTask| #[trigger] s1.contents().insert(s.secondary[0]).count(x) == s.contents().count(x) by {
        assert(s1.secondary.to_multiset().count(x) == s.secondary.to_multiset().remove(s.secondary[0]).count(x));
    }
}

proof fn lemma_waiting_contains(waiting: Seq<(usize, ExecutableTask)>, k: int)
    requires
        0 <= k < waiting.len(),
    ensures
        waiting_tasks(waiting).count(waiting[k].1) > 0,
{
    broadcast use vstd::seq_lib::group_to_multiset_ensures;
    let f = |x: (usize, ExecutableTask)| x.1;
    assert(waiting.map_values(f)[k] == waiting[k].1);
    assert(waiting.map_values(f).contains(waiting[k].1));
}

} // verus!

verus! {

/// An executable put into an empty slot is what the next take from that
/// slot returns, and that take leaves the ring buffer holding exactly what it
/// held before the put.
pub proof fn lemma_take_returns_put(s: RingBufferState, t: ExecutableTask, n: usize)
    requires
        s.wf(n),
        n > 0,
        s.registered < n,
        s.slots[slot_index(s.head, n)] is None,
    ensures
        s.put_in_ring(t, n).slots[slot_index(s.head, n)] == Some(t),
        s.put_in_ring(t, n).wf(n),
        s.put_in_ring(t, n).take_from_slot(slot_index(s.head, n)).contents() =~= s.contents(),
{
    broadcast use vstd::multiset::group_multiset_axioms;
    let idx = slot_index(s.head, n);
    assert(idx < n) by {
        let c = s.head as usize;
        let m = (n - 1) as usize;
        assert(c & m <= m) by (bit_vector);
    }
    let s1 = s.put_in_ring(t, n);
    lemma_occupied_update(s.slots, idx, Some(t));
    lemma_occupied_le(s.slots);
    assert forall|k: int| 0 <= k < s1.waiting.len() implies {
        &&& #[trigger] s1.waiting[k].0 < n
        &&& s1.slots[s1.waiting[k].0 as int] is Some
    } by {
        assert(s.waiting[k].0 < n);
    }
    lemma_put_keeps_every_executable(s, t, n);
    lemma_take_removes_only_taken(s1, n, idx);
    assert forall|x: ExecutableTask| #[trigger] s1.take_from_slot(idx).contents().count(x) == s.contents().count(x) by {
        assert(s1.take_from_slot(idx).contents().insert(t).count(x) == s1.contents().count(x));
        assert(s1.contents().count(x) == s.contents().insert(t).count(x));
    }
}

/// With a power-of-two number of slots, consecutive counter values
/// designate consecutive slots, wrapping from the last slot to the first:
/// the ring is walked in order.
pub proof fn lemma_slots_walked_in_order(c: u64, n: usize)
    requires
        n > 0,
        n & (n - 1) as usize == 0,
    ensures
        slot_index(next_count(c), n) == (slot_index(c, n) + 1) % (n as int),
{
    let m = (n - 1) as usize;
    let x = c as usize;
    let y = next_count(c) as usize;
    assert(y == if c == u64::MAX { 0usize } else { (x + 1) as usize }) by (bit_vector)
        requires y == (if c == u64::MAX { 0u64 } else { (c + 1) as u64 }) as usize, x == c as usize;
    assert(y & m == if (x & m) == m { 0usize } else { ((x & m) + 1) as usize }) by (bit_vector)
        requires
            y == if c == u64::MAX { 0usize } else { (x + 1) as usize },
            x == c as usize,
            m == (n - 1) as usize,
            n & m == 0,
            n > 0;
    assert(x & m <= m) by (bit_vector);
    let v = x & m;
    if v == m {
        assert(((v + 1) as int) % (n as int) == 0) by {
            vstd::arithmetic::div_mod::lemma_mod_self_0(n as int);
        }
    } else {
        vstd::arithmetic::div_mod::lemma_small_mod((v + 1) as nat, n as nat);
    }
}

} // verus!

verus! {

/// Slots that are all empty hold no executable.
pub proof fn lemma_slot_tasks_none(slots: Seq<Option<ExecutableTask>>)
    requires
        forall|i: int| 0 <= i < slots.len() ==> #[trigger] slots[i] is None,
    ensures
        slot_tasks(slots) =~= Multiset::empty(),
    decreases slots.len(),
{
    broadcast use vstd::multiset::group_multiset_axioms;
    if slots.len() > 0 {
        lemma_slot_tasks_none(slots.drop_last());
        assert(slots.last() is None);
    }
}

} // verus!

verus! {

/// The slot `i` places after slot `b` in a ring of `n` slots, wrapping
/// around once (for `0 <= b < n` and `0 <= i <= n`).
pub open spec fn ring_pos(b: int, i: int, n: int) -> int {
    if b + i < n {
        b + i
    } else {
        b + i - n
    }
}

/// A ring of `n` slots (a power of two) whose counters and slots hold the
/// executables `q` in order: `q[0]` sits in the slot the tail designates,
/// each next one in the slot after it, the head designates the slot after
/// the last one, and every other slot is empty.
pub open spec fn in_ring_order(
    head: u64,
    tail: u64,
    slots: Seq<Option<ExecutableTask>>,
    n: usize,
    q: Seq<ExecutableTask>,
) -> bool {
    let b = slot_index(tail, n);
    &&& n > 0
    &&& n & (n - 1) as usize == 0
    &&& slots.len() == n
    &&& q.len() <= n
    &&& slot_index(head, n) == ring_pos(b, q.len() as int, n as int)
    &&& forall|i: int| 0 <= i < q.len() ==> #[trigger] slots[ring_pos(b, i, n as int)] == Some(q[i])
    &&& forall|i: int| q.len() <= i < n ==> #[trigger] slots[ring_pos(b, i, n as int)] is None
}

/// A counter designates a slot of the ring, and the next counter value
/// designates the slot after it.
pub proof fn lemma_next_slot(c: u64, n: usize)
    requires
        n > 0,
        n & (n - 1) as usize == 0,
    ensures
        0 <= slot_index(c, n) < n,
        slot_index(next_count(c), n) == ring_pos(slot_index(c, n), 1, n as int),
{
    let m = (n - 1) as usize;
    let x = c as usize;
    assert(x & m <= m) by (bit_vector);
    lemma_slots_walked_in_order(c, n);
    let v = slot_index(c, n);
    if v + 1 < n {
        vstd::arithmetic::div_mod::lemma_small_mod((v + 1) as nat, n as nat);
    } else {
        vstd::arithmetic::div_mod::lemma_mod_self_0(n as int);
    }
}

/// In a ring holding `q` in order, the slot the head designates is empty
/// exactly when fewer than `n` executables are held, and the slot the tail
/// designates holds `q[0]`, or is empty when nothing is held.
pub proof fn lemma_in_ring_order_ends(
    head: u64,
    tail: u64,
    slots: Seq<Option<ExecutableTask>>,
    n: usize,
    q: Seq<ExecutableTask>,
)
    requires
        in_ring_order(head, tail, slots, n, q),
    ensures
        0 <= slot_index(head, n) < n,
        0 <= slot_index(tail, n) < n,
        slots[slot_index(head, n)] is None <==> q.len() < n,
        q.len() > 0 ==> slots[slot_index(tail, n)] == Some(q[0]),
        q.len() == 0 ==> slots[slot_index(tail, n)] is None,
{
    lemma_next_slot(tail, n);
    let b = slot_index(tail, n);
    if q.len() < n {
        assert(slots[ring_pos(b, q.len() as int, n as int)] is None);
    } else {
        assert(slots[ring_pos(b, 0, n as int)] == Some(q[0]));
    }
    if q.len() > 0 {
        assert(slots[ring_pos(b, 0, n as int)] == Some(q[0]));
    } else {
        assert(slots[ring_pos(b, 0, n as int)] is None);
    }
}

/// Putting `t` into the empty slot the head designates, and moving the head
/// on, gives a ring holding `q` followed by `t`.
pub proof fn lemma_in_ring_order_put(
    head: u64,
    tail: u64,
    slots: Seq<Option<ExecutableTask>>,
    n: usize,
    q: Seq<ExecutableTask>,
    t: ExecutableTask,
)
    requires
        in_ring_order(head, tail, slots, n, q),
        q.len() < n,
    ensures
        in_ring_order(next_count(head), tail, slots.update(slot_index(head, n), Some(t)), n, q.push(t)),
{
    lemma_in_ring_order_ends(head, tail, slots, n, q);
    lemma_next_slot(head, n);
    let b = slot_index(tail, n);
    let k = q.len() as int;
    let s1 = slots.update(slot_index(head, n), Some(t));
    let q1 = q.push(t);
    assert forall|i: int| 0 <= i < q1.len() implies #[trigger] s1[ring_pos(b, i, n as int)] == Some(q1[i]) by {
        if i < k {
            assert(slots[ring_pos(b, i, n as int)] == Some(q[i]));
        }
    }
    assert forall|i: int| q1.len() <= i < n implies #[trigger] s1[ring_pos(b, i, n as int)] is None by {
        assert(slots[ring_pos(b, i, n as int)] is None);
    }
}

/// Taking from the slot the tail designates, emptying it and moving the
/// tail on, gives a ring holding `q` without its first executable.
pub proof fn lemma_in_ring_order_take(
    head: u64,
    tail: u64,
    slots: Seq<Option<ExecutableTask>>,
    n: usize,
    q: Seq<ExecutableTask>,
)
    requires
        in_ring_order(head, tail, slots, n, q),
        q.len() > 0,
    ensures
        in_ring_order(head, next_count(tail), slots.update(slot_index(tail, n), None), n, q.drop_first()),
{
    lemma_in_ring_order_ends(head, tail, slots, n, q);
    lemma_next_slot(tail, n);
    let b = slot_index(tail, n);
    let b1 = slot_index(next_count(tail), n);
    let s1 = slots.update(b, None);
    let q1 = q.drop_first();
    assert forall|i: int| 0 <= i < q1.len() implies #[trigger] s1[ring_pos(b1, i, n as int)] == Some(q1[i]) by {
        assert(ring_pos(b1, i, n as int) == ring_pos(b, i + 1, n as int));
        assert(slots[ring_pos(b, i + 1, n as int)] == Some(q[i + 1]));
    }
    assert forall|i: int| q1.len() <= i < n implies #[trigger] s1[ring_pos(b1, i, n as int)] is None by {
        assert(ring_pos(b1, i, n as int) == ring_pos(b, i + 1, n as int));
        if i + 1 < n {
            assert(slots[ring_pos(b, i + 1, n as int)] is None);
        }
    }
}

impl RingBufferState {
    /// The ring holds `q` in order (see [`in_ring_order`]): no put waits for
    /// a slot and the registered count is the length of `q`.
    pub open spec fn holds_in_order(self, n: usize, q: Seq<ExecutableTask>) -> bool {
        &&& in_ring_order(self.head, self.tail, self.slots, n, q)
        &&& self.waiting.len() == 0
        &&& self.registered == q.len()
    }
}

/// A fresh ring buffer of a power-of-two number of slots holds nothing, in
/// order.
pub proof fn lemma_fresh_ring_in_order(n: usize)
    requires
        n > 0,
        n & (n - 1) as usize == 0,
    ensures
        (RingBufferState {
            in_task: 0,
            head: 0,
            tail: 0,
            slots: Seq::new(n as nat, |i: int| None::<ExecutableTask>),
            registered: 0,
            waiting: Seq::<(usize, ExecutableTask)>::empty(),
            secondary: Seq::<ExecutableTask>::empty(),
        }).holds_in_order(n, Seq::empty()),
{
    lemma_next_slot(0, n);
}

/// First in, first out: in a ring of a power-of-two number of slots holding
/// `q` in order, `enqueue(t)` while fewer than `n` are held puts `t` behind
/// `q`; a take gives `q[0]` and leaves the rest in order, or, when nothing
/// is held, reports the slot the tail designated.
pub proof fn lemma_ring_first_in_first_out(s: RingBufferState, n: usize, q: Seq<ExecutableTask>, t: ExecutableTask)
    requires
        s.holds_in_order(n, q),
    ensures
        q.len() < n ==> s.enqueued(t, n).holds_in_order(n, q.push(t)),
        q.len() < n ==> s.enqueued(t, n).secondary == s.secondary,
        q.len() == n ==> s.enqueued(t, n) == s.spill(t),
        q.len() > 0 ==> s.dequeued(n).1 == DequeueStatus::Taken(q[0])
            && s.dequeued(n).0.holds_in_order(n, q.drop_first())
            && s.dequeued(n).0.secondary == s.secondary,
        q.len() == 0 ==> s.dequeued(n).1 == DequeueStatus::Order(slot_index(s.tail, n) as usize),
{
    lemma_in_ring_order_ends(s.head, s.tail, s.slots, n, q);
    if q.len() < n {
        lemma_in_ring_order_put(s.head, s.tail, s.slots, n, q, t);
    }
    if q.len() > 0 {
        lemma_in_ring_order_take(s.head, s.tail, s.slots, n, q);
    }
}

} // verus!

verus! {

/// When no put waits for its slot, the registered count is the number of
/// occupied slots, at most the number of slots.
pub proof fn lemma_registered_counts_occupied(s: RingBufferState, n: usize)
    requires
        s.wf(n),
        s.waiting.len() == 0,
    ensures
        s.registered == occupied(s.slots),
        s.registered <= n,
{
    lemma_occupied_le(s.slots);
}

} // verus!

verus! {

/// The ring buffer after `enqueue` of each executable of `ts`, in order.
pub open spec fn after_enqueues(s: RingBufferState, ts: Seq<ExecutableTask>, n: usize) -> RingBufferState
    decreases ts.len(),
{
    if ts.len() == 0 {
        s
    } else {
        after_enqueues(s, ts.drop_last(), n).enqueued(ts.last(), n)
    }
}

/// The ring buffer after `m` takes from the tail, and what each take
/// reported, in order.
pub open spec fn after_dequeues(s: RingBufferState, n: usize, m: nat) -> (RingBufferState, Seq<DequeueStatus>)
    decreases m,
{
    if m == 0 {
        (s, Seq::empty())
    } else {
        let (s1, rs) = after_dequeues(s, n, (m - 1) as nat);
        let (s2, r) = s1.dequeued(n);
        (s2, rs.push(r))
    }
}

/// First in, first out over a whole run: a fresh ring buffer of a
/// power-of-two number `n` of slots that is given at most `n` executables
/// `ts` with `enqueue` gives them back in the same order, one per take from
/// the tail, and the take after the last one finds the slot the tail
/// designates empty.
pub proof fn lemma_ring_run_first_in_first_out(ts: Seq<ExecutableTask>, n: usize, m: nat)
    requires
        n > 0,
        n & (n - 1) as usize == 0,
        ts.len() <= n,
        m <= ts.len(),
    ensures
        ({
            let fresh = RingBufferState {
                in_task: 0,
                head: 0,
                tail: 0,
                slots: Seq::new(n as nat, |i: int| None::<ExecutableTask>),
                registered: 0,
                waiting: Seq::<(usize, ExecutableTask)>::empty(),
                secondary: Seq::<ExecutableTask>::empty(),
            };
            let filled = after_enqueues(fresh, ts, n);
            let (s, rs) = after_dequeues(filled, n, m);
            &&& filled.holds_in_order(n, ts)
            &&& filled.secondary.len() == 0
            &&& rs.len() == m
            &&& forall|i: int| 0 <= i < m ==> #[trigger] rs[i] == DequeueStatus::Taken(ts[i])
            &&& s.holds_in_order(n, ts.skip(m as int))
            &&& m == ts.len() ==> s.dequeued(n).1 == DequeueStatus::Order(slot_index(s.tail, n) as usize)
        }),
{
    let fresh = RingBufferState {
        in_task: 0,
        head: 0,
        tail: 0,
        slots: Seq::new(n as nat, |i: int| None::<ExecutableTask>),
        registered: 0,
        waiting: Seq::<(usize, ExecutableTask)>::empty(),
        secondary: Seq::<ExecutableTask>::empty(),
    };
    lemma_fresh_ring_in_order(n);
    lemma_enqueues_in_order(fresh, ts, n);
    let filled = after_enqueues(fresh, ts, n);
    lemma_dequeues_in_order(filled, ts, n, m);
    let (s, rs) = after_dequeues(filled, n, m);
    if m == ts.len() {
        assert(ts.skip(m as int).len() == 0);
        lemma_ring_first_in_first_out(s, n, ts.skip(m as int), ExecutableTask::Dummy);
    }
}

/// Enqueueing `ts` into a ring holding nothing, in order, holds `ts` in
/// order, without touching the secondary list.
proof fn lemma_enqueues_in_order(s: RingBufferState, ts: Seq<ExecutableTask>, n: usize)
    requires
        s.holds_in_order(n, Seq::empty()),
        ts.len() <= n,
    ensures
        after_enqueues(s, ts, n).holds_in_order(n, ts),
        after_enqueues(s, ts, n).secondary == s.secondary,
    decreases ts.len(),
{
    if ts.len() > 0 {
        lemma_enqueues_in_order(s, ts.drop_last(), n);
        lemma_ring_first_in_first_out(after_enqueues(s, ts.drop_last(), n), n, ts.drop_last(), ts.last());
        assert(ts.drop_last().push(ts.last()) =~= ts);
    }
}

/// `m` takes from a ring holding `q` in order give `q[0]`, ..., `q[m - 1]`
/// and leave the rest in order.
proof fn lemma_dequeues_in_order(s: RingBufferState, q: Seq<ExecutableTask>, n: usize, m: nat)
    requires
        s.holds_in_order(n, q),
        m <= q.len(),
    ensures
        after_dequeues(s, n, m).1.len() == m,
        forall|i: int| 0 <= i < m ==> #[trigger] after_dequeues(s, n, m).1[i] == DequeueStatus::Taken(q[i]),
        after_dequeues(s, n, m).0.holds_in_order(n, q.skip(m as int)),
    decreases m,
{
    if m > 0 {
        let k = (m - 1) as nat;
        lemma_dequeues_in_order(s, q, n, k);
        let (s1, rs) = after_dequeues(s, n, k);
        lemma_ring_first_in_first_out(s1, n, q.skip(k as int), ExecutableTask::Dummy);
        assert(q.skip(k as int).drop_first() =~= q.skip(m as int));
        assert(q.skip(k as int)[0] == q[k as int]);
        let rs2 = after_dequeues(s, n, m).1;
        assert(rs2 == rs.push(s1.dequeued(n).1));
        assert forall|i: int| 0 <= i < m implies #[trigger] rs2[i] == DequeueStatus::Taken(q[i]) by {
            if i < k {
                assert(rs2[i] == rs[i]);
            }
        }
    } else {
        assert(q.skip(0) =~= q);
    }
}

} // verus!

verus! {

/// Every put into the ring claims the slot the head designates and moves
/// the head on by one, whether that slot was empty (the executable is
/// placed there) or occupied (the put waits for that slot); so with a
/// power-of-two number of slots, two puts in a row claim two consecutive
/// slots.
pub proof fn lemma_puts_claim_consecutive_slots(s: RingBufferState, t: ExecutableTask, u: ExecutableTask, n: usize)
    requires
        s.wf(n),
        n >= 2,
        n & (n - 1) as usize == 0,
        s.registered + 1 < n,
    ensures
        ({
            let b = slot_index(s.head, n);
            let s1 = s.enqueued(t, n);
            let s2 = s1.enqueued(u, n);
            let b1 = ring_pos(b, 1, n as int);
            &&& s1.head == next_count(s.head)
            &&& s1.tail == s.tail
            &&& s1.slots[b] == Some(t) || s1.waiting.last() == (b as usize, t)
            &&& s.slots[b] is Some ==> s1.slots[b] == s.slots[b]
            &&& b1 != b
            &&& s2.head == next_count(s1.head)
            &&& s2.slots[b1] == Some(u) || s2.waiting.last() == (b1 as usize, u)
        }),
{
    lemma_next_slot(s.head, n);
}

/// A swap puts its executable into the slot the head designates, hands
/// back what that slot held, and moves the head on by one; so with a
/// power-of-two number of slots, the next swap hands back what the next
/// slot held.
pub proof fn lemma_swaps_walk_the_ring(s: RingBufferState, t: ExecutableTask, u: ExecutableTask, n: usize)
    requires
        s.wf(n),
        n >= 2,
        n & (n - 1) as usize == 0,
    ensures
        ({
            let b = slot_index(s.head, n);
            let s1 = s.swapped(t, n);
            &&& s1.head == next_count(s.head)
            &&& s1.tail == s.tail
            &&& s1.slots[b] == Some(t)
            &&& slot_index(s1.head, n) == ring_pos(b, 1, n as int)
            &&& ring_pos(b, 1, n as int) != b
            &&& s1.slots[slot_index(s1.head, n)] == s.slots[ring_pos(b, 1, n as int)]
            &&& s1.swapped(u, n).slots[b] == Some(t)
        }),
{
    lemma_next_slot(s.head, n);
}

/// Every take from the tail moves the tail on by one, whether the slot was
/// empty (its index is reported and nothing else changes) or occupied (its
/// executable is taken); so with a power-of-two number of slots, two takes
/// in a row look at two consecutive slots.
pub proof fn lemma_takes_walk_the_ring(s: RingBufferState, n: usize)
    requires
        s.wf(n),
        n >= 2,
        n & (n - 1) as usize == 0,
    ensures
        ({
            let b = slot_index(s.tail, n);
            let (s1, r) = s.dequeued(n);
            &&& s1.tail == next_count(s.tail)
            &&& s1.head == s.head
            &&& slot_index(s1.tail, n) == ring_pos(b, 1, n as int)
            &&& ring_pos(b, 1, n as int) != b
            &&& s.slots[b] is None ==> r == DequeueStatus::Order(b as usize) && s1.slots == s.slots
            &&& s.slots[b] is Some ==> r == DequeueStatus::Taken(s.slots[b]->Some_0)
        }),
{
    lemma_next_slot(s.tail, n);
}

} // verus!
