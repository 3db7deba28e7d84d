# orqestra

A task and job scheduler built around a fixed-size ring buffer. Each
function states its behaviour in a contract, and the contracts are proved.

- `src/ring_buffer_core.rs`: the ring buffer (`RingBufferCore`) with its
  secondary list (a `crossbeam_queue::SegQueue`) and the laws on what it holds.
- `src/store.rs`, `src/job.rs`, `src/task.rs`, `src/executable_task.rs`,
  `src/graph.rs`: tasks, jobs and the job dependency graph; a job is released
  when its last dependency has run.
- `src/worker.rs`: one round of a worker's loop as a step function.
- `src/orqestra.rs`: the scheduler that ties ring buffer, store and workers
  together, and the waiting done by `join`.
- `src/task_core.rs`, `src/secondary_list.rs`: a simpler ring buffer with its
  task counter, and a first-in first-out list.
- `app/`: the worker threads and a demonstration program.
