use orqestra::{
    ExecutableTask, JobDep, JoinAction, Orqestra, OrqestraJobTrait, OrqestraTaskTrait, TaskCore,
    DequeueStatus, WorkerAction, ExecutableStore, IDLE_YIELD_ROUNDS, JOIN_YIELD_ROUNDS,
};

struct Value(u64);

impl OrqestraTaskTrait<u64> for Value {
    fn execute(&self) -> u64 {
        self.0
    }
}

struct Sum(u64);

impl OrqestraJobTrait<u64> for Sum {
    fn execute(&self, job_dep: JobDep<'_, u64>) -> u64 {
        let mut total = self.0;
        for i in 0..job_dep.len() {
            total += job_dep.get(i).unwrap().unwrap();
        }
        total
    }
}

type Sched = Orqestra<Value, Sum, u64, 4, 2>;

fn run_until_idle(o: &mut Sched, id: usize) -> Vec<ExecutableTask> {
    let mut ran = Vec::new();
    loop {
        match o.worker_step(id) {
            WorkerAction::Executed(t) => ran.push(t),
            _ => return ran,
        }
    }
}

#[test]
fn spawned_tasks_run_in_spawn_order() {
    let mut o: Sched = Orqestra::new();
    o.spawn_task(Value(1));
    o.spawn_task(Value(2));
    assert_eq!(o.get_ring_buffer_core().in_task(), 2);
    let ran = run_until_idle(&mut o, 0);
    assert_eq!(ran, vec![ExecutableTask::Task(0), ExecutableTask::Task(1)]);
    assert_eq!(o.get_execute_core().done_task(), 2);
    // a task keeps the value it returned once it ran
    assert!(o.get_store().task(0).ready);
    assert_eq!(o.get_store().task(0).return_value, Some(1));
    assert_eq!(o.get_store().task(1).return_value, Some(2));
    assert_eq!(o.join_wait(0), (JoinAction::Finished, 0));
}

#[test]
fn try_spawn_task_reports_a_full_ring() {
    let mut o: Sched = Orqestra::new();
    for i in 0..4 {
        assert_eq!(o.try_spawn_task(Value(i)), Ok(()));
    }
    assert_eq!(
        o.try_spawn_task(Value(9)),
        Err("Cannot insert task because ring buffer is full")
    );
    assert_eq!(o.get_store().task_count(), 4);
    assert_eq!(o.get_ring_buffer_core().in_task(), 4);
}

#[test]
fn overflowing_tasks_run_from_the_secondary_list() {
    let mut o: Sched = Orqestra::new();
    for i in 0..6 {
        o.spawn_task(Value(i));
    }
    assert_eq!(o.get_ring_buffer_core().registered_count(), 4);
    let mut ran = Vec::new();
    for _ in 0..20 {
        if let WorkerAction::Executed(t) = o.worker_step(0) {
            ran.push(t);
        }
    }
    ran.sort_by_key(|t| match t {
        ExecutableTask::Task(i) => *i,
        _ => usize::MAX,
    });
    assert_eq!(ran, (0..6).map(ExecutableTask::Task).collect::<Vec<_>>());
    assert_eq!(o.get_execute_core().done_task(), 6);
    assert_eq!(o.join_wait(3), (JoinAction::Finished, 3));
}

#[test]
fn secondary_spawn_runs_after_an_idle_round() {
    let mut o: Sched = Orqestra::new();
    o.secondary_spawn(Value(5));
    assert_eq!(o.worker_step(0), WorkerAction::Yield);
    assert_eq!(o.worker_step(0), WorkerAction::Executed(ExecutableTask::Task(0)));
    assert_eq!(o.get_store().task(0).return_value, Some(5));
}

#[test]
fn job_graph_runs_in_dependency_order() {
    let mut o: Sched = Orqestra::new();
    let j1 = o.new_job(Sum(1));
    let j2 = o.new_job(Sum(2));
    let j3 = o.new_job(Sum(3));
    let j3 = o.after(j3, &j1);
    let _j3 = o.after(j3, &j2);
    o.job_exec(j1);
    o.job_exec(j2);
    assert_eq!(o.get_ring_buffer_core().in_task(), 2);
    let mut ran = Vec::new();
    for _ in 0..10 {
        if let WorkerAction::Executed(t) = o.worker_step(0) {
            ran.push(t);
        }
    }
    assert_eq!(ran, vec![ExecutableTask::Job(0), ExecutableTask::Job(1), ExecutableTask::Job(2)]);
    assert_eq!(o.get_store().job(2).return_value, Some(6));
    assert_eq!(o.get_ring_buffer_core().in_task(), 3);
    assert_eq!(o.get_execute_core().done_task(), 3);
    assert_eq!(o.join_wait(0), (JoinAction::Finished, 0));
}

#[test]
fn idle_worker_yields_then_parks() {
    let mut o: Sched = Orqestra::new();
    for _ in 0..IDLE_YIELD_ROUNDS {
        assert_eq!(o.worker_step(1), WorkerAction::Yield);
    }
    assert_eq!(o.worker_step(1), WorkerAction::Park);
    assert_eq!(o.worker_step(1), WorkerAction::Park);
    o.spawn_task(Value(4));
    assert_eq!(o.worker_step(1), WorkerAction::Executed(ExecutableTask::Task(0)));
    assert_eq!(o.worker_step(1), WorkerAction::Yield);
}

#[test]
fn stopped_workers_stop() {
    let mut o: Sched = Orqestra::new();
    o.spawn_task(Value(1));
    o.stop();
    assert!(o.get_execute_core().join_flag());
    assert_eq!(o.worker_step(0), WorkerAction::Stop);
    assert_eq!(o.get_execute_core().done_task(), 0);
    o.drop_queue();
    assert_eq!(o.get_ring_buffer_core().registered_count(), 0);
}

#[test]
fn join_waits_while_work_is_pending() {
    let mut o: Sched = Orqestra::new();
    o.spawn_task(Value(1));
    assert_eq!(o.join_wait(0), (JoinAction::Yield, 1));
    assert_eq!(o.join_wait(JOIN_YIELD_ROUNDS - 1), (JoinAction::Yield, JOIN_YIELD_ROUNDS));
    assert_eq!(o.join_wait(JOIN_YIELD_ROUNDS), (JoinAction::Park, JOIN_YIELD_ROUNDS));
    o.worker_step(0);
    assert_eq!(o.join_wait(JOIN_YIELD_ROUNDS), (JoinAction::Finished, JOIN_YIELD_ROUNDS));
}

#[test]
fn workers_share_the_ring() {
    let mut o: Sched = Orqestra::new();
    o.spawn_task(Value(1));
    o.spawn_task(Value(2));
    assert_eq!(o.worker_step(1), WorkerAction::Executed(ExecutableTask::Task(0)));
    assert_eq!(o.worker_step(0), WorkerAction::Executed(ExecutableTask::Task(1)));
    assert_eq!(o.get_execute_core().worker_count(), 2);
}

#[test]
fn task_core_spawns_into_its_ring() {
    let mut store: ExecutableStore<Value, Sum, u64> = ExecutableStore::new();
    let mut core: TaskCore<2> = TaskCore::new();
    assert_eq!(core.spawn_task(&mut store, Value(1)), ExecutableTask::Task(0));
    assert_eq!(core.in_task(), 1);
    assert_eq!(core.try_spawn_task(&mut store, Value(2)), Ok(()));
    assert_eq!(core.in_task(), 2);
    assert_eq!(
        core.try_spawn_task(&mut store, Value(3)),
        Err("Cannot insert task because ring buffer is full")
    );
    assert_eq!(core.in_task(), 2);
    assert_eq!(store.task_count(), 2);
    assert_eq!(core.dequeue(), DequeueStatus::Taken(ExecutableTask::Task(0)));
    assert_eq!(core.dequeue(), DequeueStatus::Taken(ExecutableTask::Task(1)));
    assert_eq!(core.dequeue(), DequeueStatus::Order(0));
}

#[test]
fn task_core_put_waits_for_an_occupied_slot() {
    let mut store: ExecutableStore<Value, Sum, u64> = ExecutableStore::new();
    let mut core: TaskCore<1> = TaskCore::new();
    core.spawn_task(&mut store, Value(1));
    core.spawn_task(&mut store, Value(2));
    assert_eq!(core.ring_buffer().slot(0), Some(ExecutableTask::Task(0)));
    assert_eq!(core.dequeue(), DequeueStatus::Taken(ExecutableTask::Task(0)));
    assert_eq!(core.ring_buffer().slot(0), Some(ExecutableTask::Task(1)));
    assert_eq!(core.dequeue(), DequeueStatus::Taken(ExecutableTask::Task(1)));
}

#[test]
fn join_waits_for_released_jobs_saved_in_a_worker() {
    let mut o: Sched = Orqestra::new();
    let j1 = o.new_job(Sum(1));
    let j2 = o.new_job(Sum(2));
    let _j2 = o.after(j2, &j1);
    o.job_exec(j1);
    assert_eq!(o.worker_step(0), WorkerAction::Executed(ExecutableTask::Job(0)));
    assert_eq!(o.get_execute_core().done_task(), 1);
    assert_eq!(o.get_ring_buffer_core().in_task(), 1);
    assert_eq!(o.join_wait(0), (JoinAction::Yield, 1));
    assert_eq!(o.worker_step(0), WorkerAction::Executed(ExecutableTask::Job(1)));
    assert_eq!(o.get_ring_buffer_core().in_task(), 2);
    assert_eq!(o.join_wait(1), (JoinAction::Finished, 1));
    assert_eq!(o.get_store().job(1).return_value, Some(3));
}

#[test]
fn join_finds_every_task_and_job_run_with_its_value() {
    let mut o: Sched = Orqestra::new();
    o.spawn_task(Value(10));
    assert_eq!(o.try_spawn_task(Value(11)), Ok(()));
    o.secondary_spawn(Value(12));
    let j1 = o.new_job(Sum(1));
    let j2 = o.new_job(Sum(2));
    let _j2 = o.after(j2, &j1);
    o.job_exec(j1);
    let mut rounds = 0;
    while o.join_wait(0).0 != JoinAction::Finished {
        o.worker_step(rounds % 2);
        rounds += 1;
        assert!(rounds < 100);
    }
    for i in 0..3 {
        let task = o.get_store().task(i);
        assert!(task.ready);
        assert_eq!(task.return_value, Some(10 + i as u64));
    }
    assert!(o.get_store().job(0).ready);
    assert_eq!(o.get_store().job(0).return_value, Some(1));
    assert!(o.get_store().job(1).ready);
    assert_eq!(o.get_store().job(1).return_value, Some(3));
    assert_eq!(o.get_execute_core().done_task(), 5);
}
