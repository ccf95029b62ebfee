//! The job table.
use amla_sandbox_shell::jobs::{Job, JobState, JobTable, TaskHandle, TaskOutcome};



// Basic job table operations

#[test]
fn job_table_basic() {
    let mut table = JobTable::new();
    assert!(table.is_empty());

    let id = table.add("sleep 10".into(), vec![]);
    assert_eq!(id, 1);
    assert_eq!(table.len(), 1);

    assert!(table.get(id).is_some());
    assert_eq!(table.get(id).unwrap().command, "sleep 10");
}

#[test]
fn job_table_multiple() {
    let mut table = JobTable::new();

    let id1 = table.add("cmd1".into(), vec![]);
    let id2 = table.add("cmd2".into(), vec![]);
    let id3 = table.add("cmd3".into(), vec![]);

    assert_eq!(id1, 1);
    assert_eq!(id2, 2);
    assert_eq!(id3, 3);
    assert_eq!(table.len(), 3);
}

#[test]
fn job_table_remove() {
    let mut table = JobTable::new();

    let id1 = table.add("cmd1".into(), vec![]);
    let id2 = table.add("cmd2".into(), vec![]);

    table.remove(id1);
    assert_eq!(table.len(), 1);
    assert!(table.get(id1).is_none());
    assert!(table.get(id2).is_some());
}

// Job ID management

#[test]
fn job_ids_monotonic() {
    let mut table = JobTable::new();

    // IDs should always increase, even after removal
    let id1 = table.add("cmd1".into(), vec![]);
    let id2 = table.add("cmd2".into(), vec![]);
    table.remove(id1);
    let id3 = table.add("cmd3".into(), vec![]);

    assert!(id3 > id2);
    assert_eq!(id3, 3);
}

#[test]
fn slot_reuse() {
    let mut table = JobTable::new();

    // Add some jobs
    let id1 = table.add("cmd1".into(), vec![]);
    let _id2 = table.add("cmd2".into(), vec![]);

    // Remove first job - creates empty slot
    table.remove(id1);
    assert_eq!(table.len(), 1);

    // New job should reuse the slot
    let id3 = table.add("cmd3".into(), vec![]);
    assert_eq!(id3, 3); // ID still increases
    assert_eq!(table.len(), 2);
}

// Job state

#[test]
fn job_initial_state() {
    let mut table = JobTable::new();
    let id = table.add("cmd".into(), vec![]);

    let job = table.get(id).unwrap();
    assert_eq!(job.state, JobState::Running);
}

#[test]
fn job_state_display() {
    // JobState should implement Debug and be comparable
    assert_eq!(JobState::Running, JobState::Running);
    assert_eq!(JobState::Done(0), JobState::Done(0));
    assert_ne!(JobState::Done(0), JobState::Done(1));
    assert_ne!(JobState::Running, JobState::Done(0));
}

// Job completion with no handles

#[test]
fn job_no_handles_is_complete() {
    // Job with no handles is immediately "complete"
    let job = Job {
        id: 1,
        command: "empty".into(),
        handles: vec![],
        state: JobState::Running,
    };
    assert!(job.is_complete());
}

#[test]
fn job_no_handles_update_state() {
    let mut job = Job {
        id: 1,
        command: "empty".into(),
        handles: vec![],
        state: JobState::Running,
    };
    job.update_state();
    // Empty job gets exit code 0
    assert_eq!(job.state, JobState::Done(0));
}

// Iteration

#[test]
fn iter_empty() {
    let table = JobTable::new();
    assert_eq!(table.iter().len(), 0);
}

#[test]
fn iter_all_jobs() {
    let mut table = JobTable::new();
    table.add("cmd1".into(), vec![]);
    table.add("cmd2".into(), vec![]);
    table.add("cmd3".into(), vec![]);

    let jobs = table.iter();
    assert_eq!(jobs.len(), 3);
}

#[test]
fn iter_skips_removed() {
    let mut table = JobTable::new();
    let id1 = table.add("cmd1".into(), vec![]);
    table.add("cmd2".into(), vec![]);
    table.add("cmd3".into(), vec![]);

    table.remove(id1);

    let jobs = table.iter();
    assert_eq!(jobs.len(), 2);
    assert!(jobs.iter().all(|j| j.id != id1));
}

// Get mutable

#[test]
fn get_mut_exists() {
    let mut table = JobTable::new();
    let id = table.add("cmd".into(), vec![]);

    let job = table.get_mut(id).unwrap();
    job.state = JobState::Done(42);

    assert_eq!(table.get(id).unwrap().state, JobState::Done(42));
}

#[test]
fn get_mut_not_exists() {
    let mut table = JobTable::new();
    assert!(table.get_mut(999).is_none());
}

// Remove edge cases

#[test]
fn remove_nonexistent() {
    let mut table = JobTable::new();
    table.add("cmd".into(), vec![]);

    // Should return None and not panic
    assert!(table.remove(999).is_none());
}

#[test]
fn remove_returns_job() {
    let mut table = JobTable::new();
    let id = table.add("cmd".into(), vec![]);

    let removed = table.remove(id);
    assert!(removed.is_some());
    assert_eq!(removed.unwrap().id, id);
}

#[test]
fn remove_twice() {
    let mut table = JobTable::new();
    let id = table.add("cmd".into(), vec![]);

    assert!(table.remove(id).is_some());
    assert!(table.remove(id).is_none()); // Already removed
}

// Reap (with empty handles - completion simulation)

#[test]
fn reap_empty_table() {
    let mut table = JobTable::new();
    let completed = table.reap();
    assert!(completed.is_empty());
}

#[test]
fn reap_completes_empty_jobs() {
    let mut table = JobTable::new();
    table.add("cmd1".into(), vec![]);
    table.add("cmd2".into(), vec![]);

    // Jobs with no handles complete immediately
    let completed = table.reap();
    assert_eq!(completed.len(), 2);
    assert!(table.is_empty());
}

#[test]
fn reap_returns_ids_and_codes() {
    let mut table = JobTable::new();
    let id1 = table.add("cmd1".into(), vec![]);
    let id2 = table.add("cmd2".into(), vec![]);

    let completed = table.reap();

    // Both should complete with code 0 (empty handles)
    assert!(completed.contains(&(id1, 0)));
    assert!(completed.contains(&(id2, 0)));
}

// Length and empty checks

#[test]
fn len_after_operations() {
    let mut table = JobTable::new();
    assert_eq!(table.len(), 0);

    let id1 = table.add("cmd1".into(), vec![]);
    assert_eq!(table.len(), 1);

    table.add("cmd2".into(), vec![]);
    assert_eq!(table.len(), 2);

    table.remove(id1);
    assert_eq!(table.len(), 1);
}

#[test]
fn is_empty_after_operations() {
    let mut table = JobTable::new();
    assert!(table.is_empty());

    let id = table.add("cmd".into(), vec![]);
    assert!(!table.is_empty());

    table.remove(id);
    assert!(table.is_empty());
}

// Job struct

#[test]
fn job_fields() {
    let job = Job {
        id: 42,
        command: "test command".into(),
        handles: vec![],
        state: JobState::Running,
    };

    assert_eq!(job.id, 42);
    assert_eq!(job.command, "test command");
    assert!(job.handles.is_empty());
    assert_eq!(job.state, JobState::Running);
}

// Laws

#[test]
fn an_added_job_is_found_and_a_removed_one_is_not() {
    let mut table = JobTable::new();
    let a = table.add("a".into(), vec![]);
    let b = table.add("b".into(), vec![]);
    assert_eq!(table.get(b).unwrap().command, "b");
    table.remove(b);
    assert!(table.get(b).is_none());
    assert_eq!(table.get(a).unwrap().command, "a");
}

fn task(task: u64, complete: bool, outcome: Option<TaskOutcome>) -> TaskHandle {
    TaskHandle { task, complete, outcome }
}

#[test]
fn the_last_task_tells_how_a_job_ended() {
    let mut table = JobTable::new();
    let a = table.add(
        "a | b".into(),
        vec![
            task(1, true, Some(TaskOutcome::Exit(3))),
            task(2, true, Some(TaskOutcome::Exit(7))),
        ],
    );
    let b = table.add("c".into(), vec![task(3, true, Some(TaskOutcome::Failed))]);
    let c = table.add("d".into(), vec![task(4, false, None)]);
    assert_eq!(table.reap(), vec![(a, 7), (b, 1)]);
    assert_eq!(table.len(), 1);
    assert_eq!(table.get(c).unwrap().state, JobState::Running);
}

#[test]
fn killing_a_job_names_its_tasks() {
    let mut table = JobTable::new();
    let a = table.add("a | b".into(), vec![task(5, false, None), task(6, false, None)]);
    assert_eq!(table.kill(a), Some(vec![5, 6]));
    assert_eq!(table.kill(a), None);
    assert!(table.is_empty());
}
