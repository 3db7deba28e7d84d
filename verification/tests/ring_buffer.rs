use orqestra::{DequeueStatus, ExecutableTask, RingBuffer, RingBufferCore, SecondaryList};

fn task(i: usize) -> ExecutableTask {
    ExecutableTask::Task(i)
}

#[test]
fn enqueue_then_dequeue_gives_back_the_task() {
    let mut ring: RingBufferCore<4> = RingBufferCore::new();
    ring.enqueue(task(7));
    assert_eq!(ring.in_task(), 1);
    assert_eq!(ring.registered_count(), 1);
    assert_eq!(ring.dequeue(), DequeueStatus::Taken(task(7)));
    assert_eq!(ring.registered_count(), 0);
    assert_eq!(ring.in_task(), 1);
}

#[test]
fn slots_are_filled_in_order_and_wrap() {
    let mut ring: RingBufferCore<4> = RingBufferCore::new();
    for i in 0..4 {
        ring.enqueue(task(i));
    }
    for i in 0..4 {
        assert_eq!(ring.slot(i), Some(task(i)));
    }
    for i in 0..4 {
        assert_eq!(ring.dequeue(), DequeueStatus::Taken(task(i)));
    }
    ring.enqueue(task(10));
    assert_eq!(ring.slot(0), Some(task(10)));
    assert_eq!(ring.dequeue(), DequeueStatus::Taken(task(10)));
}

#[test]
fn dequeue_on_empty_slot_reserves_it() {
    let mut ring: RingBufferCore<4> = RingBufferCore::new();
    assert_eq!(ring.dequeue(), DequeueStatus::Order(0));
    assert_eq!(ring.dequeue_via_order(0), DequeueStatus::Order(0));
    ring.enqueue(task(3));
    assert_eq!(ring.dequeue_via_order(0), DequeueStatus::Taken(task(3)));
    assert_eq!(ring.dequeue_via_order(0), DequeueStatus::Order(0));
}

#[test]
fn try_enqueue_fails_when_full() {
    let mut ring: RingBufferCore<2> = RingBufferCore::new();
    assert_eq!(ring.try_enqueue(task(1)), Ok(()));
    assert_eq!(ring.try_enqueue(task(2)), Ok(()));
    assert_eq!(
        ring.try_enqueue(task(3)),
        Err("Cannot insert task because ring buffer is full")
    );
    assert_eq!(ring.in_task(), 2);
    assert_eq!(ring.registered_count(), 2);
    assert_eq!(ring.dequeue(), DequeueStatus::Taken(task(1)));
    assert_eq!(ring.try_enqueue(task(3)), Ok(()));
}

#[test]
fn enqueue_spills_to_secondary_list_when_full() {
    let mut ring: RingBufferCore<2> = RingBufferCore::new();
    ring.enqueue(task(1));
    ring.enqueue(task(2));
    ring.enqueue(task(3));
    ring.enqueue(task(4));
    assert_eq!(ring.in_task(), 4);
    assert_eq!(ring.registered_count(), 2);
    assert_eq!(ring.secondary_pop(), Some(task(3)));
    assert_eq!(ring.secondary_pop(), Some(task(4)));
    assert_eq!(ring.secondary_pop(), None);
}

#[test]
fn secondary_push_keeps_order() {
    let mut ring: RingBufferCore<2> = RingBufferCore::new();
    ring.secondary_push(task(5));
    ring.secondary_push(task(6));
    assert_eq!(ring.in_task(), 2);
    assert_eq!(ring.registered_count(), 0);
    assert_eq!(ring.secondary_pop(), Some(task(5)));
    assert_eq!(ring.secondary_pop(), Some(task(6)));
    assert_eq!(ring.secondary_pop(), None);
}

#[test]
fn enqueue_or_swap_hands_back_the_displaced_task() {
    let mut ring: RingBufferCore<2> = RingBufferCore::new();
    assert_eq!(ring.enqueue_or_swap(task(1)), None);
    assert_eq!(ring.registered_count(), 1);
    assert_eq!(ring.enqueue_or_swap(task(2)), None);
    assert_eq!(ring.enqueue_or_swap(task(3)), Some(task(1)));
    assert_eq!(ring.registered_count(), 2);
    assert_eq!(ring.in_task(), 3);
    assert_eq!(ring.slot(0), Some(task(3)));
}

#[test]
fn put_waits_for_its_slot_and_completes_when_emptied() {
    let mut ring: RingBufferCore<2> = RingBufferCore::new();
    assert_eq!(ring.dequeue(), DequeueStatus::Order(0));
    assert_eq!(ring.dequeue(), DequeueStatus::Order(1));
    ring.enqueue(task(1));
    ring.enqueue(task(2));
    assert_eq!(ring.dequeue_via_order(1), DequeueStatus::Taken(task(2)));
    // the head designates slot 0 again, which still holds task 1
    ring.enqueue(task(3));
    assert_eq!(ring.waiting_count(), 1);
    assert_eq!(ring.registered_count(), 2);
    assert_eq!(ring.dequeue_via_order(0), DequeueStatus::Taken(task(1)));
    assert_eq!(ring.waiting_count(), 0);
    assert_eq!(ring.slot(0), Some(task(3)));
    assert_eq!(ring.dequeue_via_order(0), DequeueStatus::Taken(task(3)));
    assert_eq!(ring.registered_count(), 0);
}

#[test]
fn drop_queue_empties_the_ring() {
    let mut ring: RingBufferCore<4> = RingBufferCore::new();
    ring.enqueue(task(1));
    ring.enqueue(task(2));
    ring.drop_queue();
    assert_eq!(ring.registered_count(), 0);
    assert_eq!(ring.slot(0), None);
    assert_eq!(ring.slot(1), None);
    assert_eq!(ring.in_task(), 2);
}

#[test]
fn ring_with_no_slots_sends_everything_to_the_secondary_list() {
    let mut ring: RingBufferCore<0> = RingBufferCore::new();
    ring.enqueue(task(1));
    assert!(ring.try_enqueue(task(2)).is_err());
    assert_eq!(ring.secondary_pop(), Some(task(1)));
}

#[test]
fn secondary_list_is_first_in_first_out() {
    let mut list = SecondaryList::new();
    assert_eq!(list.pop_back(), None);
    list.push_front(task(1));
    list.push_front(task(2));
    list.push_front(task(3));
    assert_eq!(list.len(), 3);
    assert_eq!(list.pop_back(), Some(task(1)));
    assert_eq!(list.pop_back(), Some(task(2)));
    list.push_front(task(4));
    assert_eq!(list.pop_back(), Some(task(3)));
    assert_eq!(list.pop_back(), Some(task(4)));
    assert_eq!(list.pop_back(), None);
}

#[test]
fn dummy_handle() {
    assert_eq!(ExecutableTask::new_dummy(), ExecutableTask::Dummy);
}

#[test]
fn refused_put_leaves_the_ring_unchanged() {
    let mut ring: RingBuffer<2> = RingBuffer::new();
    assert_eq!(ring.try_enqueue(task(1)), Ok(()));
    assert_eq!(ring.try_enqueue(task(2)), Ok(()));
    assert_eq!(
        ring.try_enqueue(task(3)),
        Err("Cannot insert task because ring buffer is full")
    );
    assert_eq!(ring.dequeue(), DequeueStatus::Taken(task(1)));
    assert_eq!(ring.try_enqueue(task(4)), Ok(()));
    assert_eq!(ring.dequeue(), DequeueStatus::Taken(task(2)));
    assert_eq!(ring.dequeue(), DequeueStatus::Taken(task(4)));
    assert_eq!(ring.dequeue(), DequeueStatus::Order(1));
}

#[test]
fn core_ring_is_first_in_first_out() {
    let mut ring: RingBufferCore<4> = RingBufferCore::new();
    for i in 1..=4 {
        ring.enqueue(task(i));
    }
    assert_eq!(ring.registered_count(), 4);
    for i in 1..=4 {
        assert_eq!(ring.dequeue(), DequeueStatus::Taken(task(i)));
    }
    assert_eq!(ring.dequeue(), DequeueStatus::Order(0));
    assert_eq!(ring.registered_count(), 0);
}

#[test]
fn core_ring_keeps_order_across_the_wrap() {
    let mut ring: RingBufferCore<4> = RingBufferCore::new();
    ring.enqueue(task(1));
    ring.enqueue(task(2));
    ring.enqueue(task(3));
    assert_eq!(ring.dequeue(), DequeueStatus::Taken(task(1)));
    assert_eq!(ring.dequeue(), DequeueStatus::Taken(task(2)));
    ring.enqueue(task(4));
    ring.enqueue(task(5));
    ring.enqueue(task(6));
    assert_eq!(ring.slot(0), Some(task(5)));
    for i in 3..=6 {
        assert_eq!(ring.dequeue(), DequeueStatus::Taken(task(i)));
    }
    assert_eq!(ring.dequeue(), DequeueStatus::Order(2));
}
