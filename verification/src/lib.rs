//! A task and job scheduler built around a fixed-size ring buffer.
//!
//! Tasks and jobs are registered in an [`ExecutableStore`]; the ring buffer and
//! the worker loop only move light handles ([`ExecutableTask`]) around.
//! Jobs form a dependency graph: a job becomes runnable once every job it was
//! scheduled `after` has been executed.

pub mod graph;
pub mod task;
pub mod job;
pub mod store;
pub mod executable_task;
pub mod ring_buffer_core;
pub mod worker;
pub mod secondary_list;
pub mod task_core;
pub mod orqestra;

pub use graph::{occurrences, in_degree, released};
pub use task::{OrqestraTaskTrait, WaitingTask};
pub use job::{OrqestraJobTrait, InnerJob, Job, JobDep, JobDepErr};
pub use store::{
    ExecutableStore, finished, job_handles, lemma_dependency_values_in_after_order, lemma_next_job_releases_exactly,
    same_data,
};
pub use executable_task::ExecutableTask;
pub use ring_buffer_core::{
    DequeueStatus, RingBufferCore, RingBufferSpace, RingBufferState, first_waiting, in_ring_order,
    after_dequeues, after_enqueues, lemma_registered_counts_occupied, lemma_ring_first_in_first_out,
    lemma_puts_claim_consecutive_slots, lemma_ring_run_first_in_first_out, lemma_swaps_walk_the_ring,
    lemma_takes_walk_the_ring, next_count, occupied, ring_pos,
    secondary_items, slot_index,
};
pub use worker::{
    IDLE_YIELD_ROUNDS, Worker, WorkerAction, WorkerState, all_runnable_in, counts_idle, executed_of, first_saved, released_of,
    lemma_ran_finishes,
    lemma_idle_rounds_decide, lemma_released_job_runs_on_finished_values, lemma_reservation_used_up, picked, ran,
    released_by, stepped, trailing_idle,
};
pub use secondary_list::{SecondaryList, after_pushes, lemma_first_in_first_out};
pub use task_core::{
    RingBuffer, TaskCore, TaskRingState, after_puts, after_takes, lemma_queued_put, lemma_queued_take,
    lemma_task_puts_claim_consecutive_slots, lemma_task_ring_first_in_first_out,
    lemma_task_ring_run_first_in_first_out, lemma_task_takes_walk_the_ring, queued_in_order,
};
pub use orqestra::{
    ExecuteCore, JOIN_YIELD_ROUNDS, JoinAction, Orqestra, all_saved, counter_range, lemma_accounting,
    lemma_job_waits_for_dependencies, lemma_join_finishes_after_everything_ran, lemma_join_runs_everything,
};
