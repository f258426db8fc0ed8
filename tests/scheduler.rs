use modular_mc::chunk::Chunk;
use modular_mc::guard::MutationGuard;
use modular_mc::scheduler::{Scheduler, Task, TaskSource, STEAL_BATCH};
use modular_mc::worker::{run_until_idle, work_step, StepOutcome};

fn task(id: u64) -> Task {
    Task { id, x: (id % 16) as u8, y: ((id / 256) % 16) as u8, z: ((id / 16) % 16) as u8, index: id % 3 }
}

fn chunk3() -> Chunk {
    let mut buffer = Vec::new();
    for v in [100u64, 200, 300] {
        buffer.extend_from_slice(&v.to_le_bytes());
    }
    buffer.extend(std::iter::repeat(0u8).take(1024));
    Chunk::from_parts(3, buffer).unwrap()
}

#[test]
fn local_then_global_then_peer() {
    let mut sched = Scheduler::new(3);
    for id in 0..(STEAL_BATCH as u64 + 2) {
        sched.submit(task(id));
    }
    let (t, src) = sched.next_task(0).unwrap();
    assert_eq!((t.id, src), (0, TaskSource::Global));
    let (t, src) = sched.next_task(0).unwrap();
    assert_eq!((t.id, src), (1, TaskSource::Local));
    let (t, src) = sched.next_task(1).unwrap();
    assert_eq!((t.id, src), (STEAL_BATCH as u64, TaskSource::Global));
    let (t, src) = sched.next_task(1).unwrap();
    assert_eq!((t.id, src), (STEAL_BATCH as u64 + 1, TaskSource::Local));
    let (t, src) = sched.next_task(2).unwrap();
    assert_eq!((t.id, src), (STEAL_BATCH as u64 - 1, TaskSource::Peer(0)));
}

#[test]
fn peer_rotation_starts_after_worker() {
    let mut sched = Scheduler::new(3);
    sched.submit(task(1));
    sched.submit(task(2));
    let _ = sched.next_task(0);
    sched.requeue(1, task(9));
    let (t, src) = sched.next_task(2).unwrap();
    assert_eq!((t.id, src), (2, TaskSource::Peer(0)));
    let (t, src) = sched.next_task(2).unwrap();
    assert_eq!((t.id, src), (9, TaskSource::Peer(1)));
    assert!(sched.next_task(2).is_none());
}

#[test]
fn every_task_runs_exactly_once() {
    for workers in [1usize, 2, 3, 8] {
        let mut sched = Scheduler::new(workers);
        for id in 0..1000u64 {
            sched.submit(task(id));
        }
        let mut chunk = chunk3();
        let mut guard = MutationGuard::new(chunk.buffer_len());
        let done = run_until_idle(&mut sched, &mut guard, &mut chunk);
        assert_eq!(done.len(), 1000);
        let mut seen = vec![false; 1000];
        for t in &done {
            assert!(!seen[t.id as usize]);
            seen[t.id as usize] = true;
        }
        assert!(sched.next_task(0).is_none());
        let last = task(998);
        let r = chunk.block_at(last.x, last.y, last.z);
        assert_eq!(chunk.block_index(&r), last.index);
    }
}

#[test]
fn held_bytes_send_task_back() {
    let mut sched = Scheduler::new(2);
    let t = Task { id: 7, x: 0, y: 0, z: 0, index: 2 };
    sched.submit(t);
    let mut chunk = chunk3();
    let mut guard = MutationGuard::new(chunk.buffer_len());
    let r = chunk.block_at(0, 0, 0);
    assert!(guard.try_claim(r.byte_start, r.byte_end));
    assert_eq!(work_step(&mut sched, &mut guard, &mut chunk, 1), StepOutcome::Requeued(t));
    guard.release(r.byte_start, r.byte_end);
    assert_eq!(work_step(&mut sched, &mut guard, &mut chunk, 1), StepOutcome::Applied(t));
    assert_eq!(chunk.block_index(&r), 2);
    assert_eq!(work_step(&mut sched, &mut guard, &mut chunk, 0), StepOutcome::Idle);
}

#[test]
fn invalid_tasks_are_dropped() {
    let mut sched = Scheduler::new(1);
    let bad_pos = Task { id: 1, x: 16, y: 0, z: 0, index: 0 };
    let bad_index = Task { id: 2, x: 0, y: 0, z: 0, index: 3 };
    sched.submit(bad_pos);
    sched.submit(bad_index);
    let mut chunk = chunk3();
    let mut guard = MutationGuard::new(chunk.buffer_len());
    assert_eq!(work_step(&mut sched, &mut guard, &mut chunk, 0), StepOutcome::Rejected(bad_pos));
    assert_eq!(work_step(&mut sched, &mut guard, &mut chunk, 0), StepOutcome::Rejected(bad_index));
    assert_eq!(work_step(&mut sched, &mut guard, &mut chunk, 0), StepOutcome::Idle);
}

#[test]
fn last_task_on_a_block_wins() {
    let mut sched = Scheduler::new(1);
    sched.submit(Task { id: 1, x: 2, y: 3, z: 4, index: 1 });
    sched.submit(Task { id: 2, x: 2, y: 3, z: 4, index: 2 });
    sched.submit(Task { id: 3, x: 2, y: 3, z: 4, index: 7 });
    let mut chunk = chunk3();
    let mut guard = MutationGuard::new(chunk.buffer_len());
    let done = run_until_idle(&mut sched, &mut guard, &mut chunk);
    assert_eq!(done.iter().map(|t| t.id).collect::<Vec<_>>(), vec![1, 2, 3]);
    let r = chunk.block_at(2, 3, 4);
    assert_eq!(chunk.block_index(&r), 2);
    assert_eq!(chunk.block_palette(), vec![100, 200, 300]);
    let other = chunk.block_at(2, 3, 5);
    assert_eq!(chunk.block_index(&other), 0);
}
