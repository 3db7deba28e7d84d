use std::collections::VecDeque;

use orqestra::{
    ExecutableStore, ExecutableTask, Job, JobDep, JobDepErr, OrqestraJobTrait, OrqestraTaskTrait,
    WaitingTask,
};

struct Value(u64);

impl OrqestraTaskTrait<u64> for Value {
    fn execute(&self) -> u64 {
        self.0
    }
}

/// Adds its own value to the values of its dependencies.
struct Sum(u64);

impl OrqestraJobTrait<u64> for Sum {
    fn execute(&self, job_dep: JobDep<'_, u64>) -> u64 {
        let mut total = self.0;
        let mut i = 0;
        while let Ok(v) = job_dep.get(i) {
            total += v.unwrap();
            i += 1;
        }
        total
    }
}

#[test]
fn waiting_task_starts_without_value() {
    let t: WaitingTask<Value, u64> = WaitingTask::new(Value(3));
    assert_eq!(t.f.0, 3);
    assert!(t.return_value.is_none());
    assert!(!t.ready);
}

#[test]
fn new_job_has_no_dependencies() {
    let mut store: ExecutableStore<Value, Sum, u64> = ExecutableStore::new();
    let j = Job::new(&mut store, Sum(1));
    assert_eq!(j.position(), 0);
    let inner = store.job(0);
    assert_eq!(inner.exec_counter, 0);
    assert!(inner.next_jobs.is_empty());
    assert!(inner.dep.is_empty());
    assert!(!inner.ready);
}

#[test]
fn after_registers_the_dependency_both_ways() {
    let mut store: ExecutableStore<Value, Sum, u64> = ExecutableStore::new();
    let j1 = Job::new(&mut store, Sum(1));
    let j2 = Job::new(&mut store, Sum(2));
    let j3 = Job::new(&mut store, Sum(3)).after(&mut store, &j1).after(&mut store, &j2);
    assert_eq!(store.job(j3.position()).exec_counter, 2);
    assert_eq!(store.job(j3.position()).dep, vec![0, 1]);
    assert_eq!(store.job(0).next_jobs, vec![2]);
    assert_eq!(store.job(1).next_jobs, vec![2]);
}

#[test]
fn job_is_released_by_its_last_dependency() {
    let mut store: ExecutableStore<Value, Sum, u64> = ExecutableStore::new();
    let j1 = Job::new(&mut store, Sum(1));
    let j2 = Job::new(&mut store, Sum(2));
    let _j3 = Job::new(&mut store, Sum(3)).after(&mut store, &j1).after(&mut store, &j2);
    let mut saving = VecDeque::new();
    ExecutableTask::new_job(j1).next_job(&mut store, &mut saving);
    assert!(saving.is_empty());
    assert_eq!(store.job(2).exec_counter, 1);
    assert!(store.job(0).next_jobs.is_empty());
    ExecutableTask::new_job(j2).next_job(&mut store, &mut saving);
    assert_eq!(saving, VecDeque::from(vec![ExecutableTask::Job(2)]));
    assert_eq!(store.job(2).exec_counter, 0);
}

#[test]
fn job_with_two_edges_from_the_same_job_is_released_once() {
    let mut store: ExecutableStore<Value, Sum, u64> = ExecutableStore::new();
    let j1 = Job::new(&mut store, Sum(1));
    let j2 = Job::new(&mut store, Sum(2)).after(&mut store, &j1).after(&mut store, &j1);
    let j3 = Job::new(&mut store, Sum(3)).after(&mut store, &j1);
    assert_eq!(store.job(0).next_jobs, vec![1, 1, 2]);
    let mut saving = VecDeque::new();
    ExecutableTask::new_job(j1).next_job(&mut store, &mut saving);
    assert_eq!(
        saving,
        VecDeque::from(vec![
            ExecutableTask::new_job(j2),
            ExecutableTask::new_job_from_arc_inner(j3.position())
        ])
    );
}

#[test]
fn next_job_of_a_task_changes_nothing() {
    let mut store: ExecutableStore<Value, Sum, u64> = ExecutableStore::new();
    let t = ExecutableTask::new_task(&mut store, Value(1));
    let mut saving = VecDeque::new();
    t.next_job(&mut store, &mut saving);
    assert!(saving.is_empty());
}

#[test]
fn execute_then_update_stores_the_task_value() {
    let mut store: ExecutableStore<Value, Sum, u64> = ExecutableStore::new();
    let t = ExecutableTask::new_task(&mut store, Value(9));
    assert_eq!(t, ExecutableTask::Task(0));
    assert_eq!(t.execute(&store), 9);
    t.execute_then_update(&mut store);
    let stored = store.task(0);
    assert_eq!(stored.return_value, Some(9));
    assert!(stored.ready);
}

#[test]
fn job_reads_its_dependencies_in_after_order() {
    let mut store: ExecutableStore<Value, Sum, u64> = ExecutableStore::new();
    let j1 = Job::new(&mut store, Sum(10));
    let j2 = Job::new(&mut store, Sum(20));
    let j3 = Job::new(&mut store, Sum(3)).after(&mut store, &j1).after(&mut store, &j2);
    ExecutableTask::new_job(j1).execute_then_update(&mut store);
    ExecutableTask::new_job(j2).execute_then_update(&mut store);
    let h3 = ExecutableTask::new_job(j3);
    h3.execute_then_update(&mut store);
    assert_eq!(store.job(2).return_value, Some(33));
    let dep = store.job_dep(2);
    assert_eq!(dep.len(), 2);
    assert_eq!(dep.get(0), Ok(&Some(10)));
    assert_eq!(dep.get(1), Ok(&Some(20)));
}

#[test]
fn job_dep_errors() {
    let mut store: ExecutableStore<Value, Sum, u64> = ExecutableStore::new();
    let j1 = Job::new(&mut store, Sum(1));
    let _j2 = Job::new(&mut store, Sum(2)).after(&mut store, &j1);
    let dep = store.job_dep(1);
    assert_eq!(dep.get(0), Err(JobDepErr::ValueIsnNotReady));
    assert_eq!(dep.get(1), Err(JobDepErr::IndexOutOfBounds));
}

#[test]
fn update_value_on_dummy_changes_nothing() {
    let mut store: ExecutableStore<Value, Sum, u64> = ExecutableStore::new();
    ExecutableTask::new_dummy().update_value(&mut store, 5);
    assert_eq!(store.task_count(), 0);
    assert_eq!(store.job_count(), 0);
}

#[test]
fn diamond_graph_counts_pending_dependencies() {
    let mut store: ExecutableStore<Value, Sum, u64> = ExecutableStore::new();
    let j1 = Job::new(&mut store, Sum(1));
    let j2 = Job::new(&mut store, Sum(2)).after(&mut store, &j1);
    let j3 = Job::new(&mut store, Sum(3)).after(&mut store, &j1);
    let j4 = Job::new(&mut store, Sum(4)).after(&mut store, &j2).after(&mut store, &j3);
    assert_eq!(store.job(j1.position()).exec_counter, 0);
    assert_eq!(store.job(j2.position()).exec_counter, 1);
    assert_eq!(store.job(j3.position()).exec_counter, 1);
    assert_eq!(store.job(j4.position()).exec_counter, 2);
    assert_eq!(store.job(j1.position()).next_jobs, vec![1, 2]);
    let mut saving = VecDeque::new();
    ExecutableTask::new_job(j1).next_job(&mut store, &mut saving);
    assert_eq!(saving, VecDeque::from(vec![ExecutableTask::Job(1), ExecutableTask::Job(2)]));
    ExecutableTask::new_job(j2).next_job(&mut store, &mut saving);
    assert_eq!(saving.len(), 2);
    ExecutableTask::new_job(j3).next_job(&mut store, &mut saving);
    assert_eq!(saving.back(), Some(&ExecutableTask::Job(3)));
    assert_eq!(store.job(j4.position()).exec_counter, 0);
}
