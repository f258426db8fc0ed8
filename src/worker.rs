//! What a worker does with the task it is handed: locate the block, claim the
//! bytes its index touches, store the new index, give the claim back. A task
//! whose bytes are held by another writer goes back to the worker's queue.

use vstd::prelude::*;
use crate::chunk::{field_end, field_start, lemma_field_in_buffer, slot_of, Chunk};
use crate::guard::{range_free, MutationGuard};
use crate::scheduler::{Scheduler, Task};

verus! {

broadcast use
    vstd::seq_lib::group_to_multiset_ensures,
    vstd::multiset::group_multiset_axioms,
    vstd::multiset::group_multiset_properties,
;

/// What one step of a worker came to.
#[derive(Debug, Clone, Copy, PartialEq, Eq, Structural)]
pub enum StepOutcome {
    /// Every queue was empty.
    Idle,
    /// The task's index was stored.
    Applied(Task),
    /// The task names a position outside the chunk or an index outside the
    /// palette; it was dropped.
    Rejected(Task),
    /// Another writer held a byte of the task's index; the task went back to
    /// the worker's own queue.
    Requeued(Task),
}

/// The task names a block of the chunk and an entry of a palette of
/// `palette_size` entries.
pub open spec fn task_valid(t: Task, palette_size: nat) -> bool {
    t.x < 16 && t.y < 16 && t.z < 16 && t.index < palette_size
}

/// The slot that a task writes.
pub open spec fn task_slot(t: Task) -> nat {
    slot_of(t.x as nat, t.y as nat, t.z as nat)
}

/// The index that slot `slot` holds once `tasks` have been serviced in
/// order, starting from `initial`: that of the last valid task aimed at the
/// slot, or `initial` when there is none.
pub open spec fn index_after(tasks: Seq<Task>, palette_size: nat, slot: nat, initial: nat) -> nat
    decreases tasks.len(),
{
    if tasks.len() == 0 {
        initial
    } else if task_valid(tasks.last(), palette_size) && task_slot(tasks.last()) == slot {
        tasks.last().index as nat
    } else {
        index_after(tasks.drop_last(), palette_size, slot, initial)
    }
}

/// One turn of `worker`: take the next task, and carry it out under a claim
/// on the bytes it writes, or drop it when invalid, or put it back when its
/// bytes are held.
pub fn work_step(
    sched: &mut Scheduler,
    guard: &mut MutationGuard,
    chunk: &mut Chunk,
    worker: usize,
) -> (r: StepOutcome)
    requires
        worker < old(sched).workers(),
        old(chunk).wf(),
        old(guard)@.len() == old(chunk).bytes().len(),
    ensures
        final(sched).workers() == old(sched).workers(),
        final(chunk).wf(),
        final(chunk).spec_palette_size() == old(chunk).spec_palette_size(),
        final(chunk).bytes().len() == old(chunk).bytes().len(),
        final(guard)@ == old(guard)@,
        match r {
            StepOutcome::Idle => {
                &&& old(sched).pending().len() == 0
                &&& final(sched).pending() == old(sched).pending()
                &&& *final(chunk) == *old(chunk)
            },
            StepOutcome::Applied(t) => {
                let ps = old(chunk).spec_palette_size();
                let before = old(chunk).bytes();
                let after = final(chunk).bytes();
                &&& old(sched).pending() == final(sched).pending().insert(t)
                &&& task_valid(t, ps)
                &&& final(chunk).index_at(task_slot(t)) == t.index
                &&& forall|s: nat|
                    s < 4096 && s != task_slot(t) ==> #[trigger] final(chunk).index_at(s)
                        == old(chunk).index_at(s)
                &&& forall|q: int|
                    0 <= q < before.len() && !(field_start(ps, task_slot(t)) <= q < field_end(
                        ps,
                        task_slot(t),
                    )) ==> after[q] == before[q]
                &&& after.subrange(0, 8 * ps as int) == before.subrange(0, 8 * ps as int)
            },
            StepOutcome::Rejected(t) => {
                &&& old(sched).pending() == final(sched).pending().insert(t)
                &&& !task_valid(t, old(chunk).spec_palette_size())
                &&& *final(chunk) == *old(chunk)
            },
            StepOutcome::Requeued(t) => {
                &&& final(sched).pending() == old(sched).pending()
                &&& task_valid(t, old(chunk).spec_palette_size())
                &&& !range_free(
                    old(guard)@,
                    field_start(old(chunk).spec_palette_size(), task_slot(t)) as int,
                    field_end(old(chunk).spec_palette_size(), task_slot(t)) as int,
                )
                &&& *final(chunk) == *old(chunk)
            },
        },
{
    let next = sched.next_task(worker);
    match next {
        None => StepOutcome::Idle,
        Some((t, _)) => {
            if !(t.x < 16 && t.y < 16 && t.z < 16 && (t.index as u128) < (
            chunk.palette_size() as u128)) {
                return StepOutcome::Rejected(t);
            }
            let r = chunk.block_at(t.x, t.y, t.z);
            let ghost g0 = guard@;
            if guard.try_claim(r.byte_start, r.byte_end) {
                let ghost c0 = *chunk;
                chunk.set_block_index(guard, &r, t.index);
                guard.release(r.byte_start, r.byte_end);
                proof {
                    assert(guard@ =~= g0);
                    let n = 8 * c0.spec_palette_size() as int;
                    assert(chunk.bytes().subrange(0, n) =~= c0.bytes().subrange(0, n));
                }
                StepOutcome::Applied(t)
            } else {
                sched.requeue(worker, t);
                StepOutcome::Requeued(t)
            }
        },
    }
}

/// Runs the workers in turn, `0, 1, ..., n - 1, 0, ...`, until every queue is
/// empty. With no claim held when it starts, every pending task is serviced
/// exactly once: the tasks returned, in the order they were serviced, are
/// exactly the pending ones. Afterwards each slot holds the index of the last
/// valid task aimed at it, or its old index when none was; the palette and
/// the buffer's length are as they were.
pub fn run_until_idle(sched: &mut Scheduler, guard: &mut MutationGuard, chunk: &mut Chunk) -> (done:
    Vec<Task>)
    requires
        old(sched).workers() >= 1,
        old(chunk).wf(),
        old(guard)@.len() == old(chunk).bytes().len(),
        range_free(old(guard)@, 0, old(guard)@.len() as int),
    ensures
        done@.to_multiset() == old(sched).pending(),
        final(sched).pending().len() == 0,
        final(chunk).wf(),
        final(chunk).spec_palette_size() == old(chunk).spec_palette_size(),
        final(chunk).bytes().len() == old(chunk).bytes().len(),
        final(chunk).bytes().subrange(0, 8 * old(chunk).spec_palette_size() as int) == old(
            chunk,
        ).bytes().subrange(0, 8 * old(chunk).spec_palette_size() as int),
        forall|s: nat|
            s < 4096 ==> #[trigger] final(chunk).index_at(s) == index_after(
                done@,
                old(chunk).spec_palette_size(),
                s,
                old(chunk).index_at(s),
            ),
        final(guard)@ == old(guard)@,
{
    let n = sched.worker_count();
    let mut done: Vec<Task> = Vec::new();
    let mut w: usize = 0;
    let ghost ps = chunk.spec_palette_size();
    let ghost c0 = *chunk;
    loop
        invariant
            n == sched.workers(),
            n >= 1,
            w < n,
            chunk.wf(),
            ps == old(chunk).spec_palette_size(),
            c0 == *old(chunk),
            chunk.spec_palette_size() == ps,
            chunk.bytes().len() == c0.bytes().len(),
            chunk.bytes().subrange(0, 8 * ps as int) == c0.bytes().subrange(0, 8 * ps as int),
            forall|s: nat|
                s < 4096 ==> #[trigger] chunk.index_at(s) == index_after(
                    done@,
                    ps,
                    s,
                    c0.index_at(s),
                ),
            guard@ == old(guard)@,
            guard@.len() == chunk.bytes().len(),
            range_free(guard@, 0, guard@.len() as int),
            done@.to_multiset().add(sched.pending()) == old(sched).pending(),
        decreases sched.pending().len(),
    {
        let ghost before = sched.pending();
        let ghost before_done = done@;
        let ghost c1 = *chunk;
        let outcome = work_step(sched, guard, chunk, w);
        match outcome {
            StepOutcome::Idle => {
                proof {
                    assert(done@.to_multiset().add(sched.pending()) =~= done@.to_multiset());
                }
                return done;
            },
            StepOutcome::Applied(t) => {
                done.push(t);
                proof {
                    assert(before_done.push(t).to_multiset() =~= before_done.to_multiset().insert(
                        t,
                    ));
                    assert(done@.to_multiset().add(sched.pending()) =~= before_done.to_multiset().add(
                        before,
                    ));
                    assert(done@.drop_last() =~= before_done);
                    assert(chunk.bytes().subrange(0, 8 * ps as int) =~= c0.bytes().subrange(
                        0,
                        8 * ps as int,
                    )) by {
                        assert(chunk.bytes().subrange(0, 8 * ps as int) == c1.bytes().subrange(
                            0,
                            8 * ps as int,
                        ));
                    }
                    assert forall|s: nat| s < 4096 implies #[trigger] chunk.index_at(s)
                        == index_after(done@, ps, s, c0.index_at(s)) by {
                        if s != task_slot(t) {
                            assert(chunk.index_at(s) == c1.index_at(s));
                        }
                    }
                }
            },
            StepOutcome::Rejected(t) => {
                done.push(t);
                proof {
                    assert(done@.to_multiset().add(sched.pending()) =~= before_done.to_multiset().add(
                        before,
                    ));
                    assert(done@.drop_last() =~= before_done);
                    assert forall|s: nat| s < 4096 implies #[trigger] chunk.index_at(s)
                        == index_after(done@, ps, s, c0.index_at(s)) by {
                        assert(chunk.index_at(s) == c1.index_at(s));
                    }
                }
            },
            StepOutcome::Requeued(t) => {
                proof {
                    lemma_field_in_buffer(ps, task_slot(t));
                    assert(field_end(ps, task_slot(t)) <= guard@.len());
                    assert(false);
                }
            },
        }
        w = if w + 1 == n {
            0
        } else {
            w + 1
        };
    }
}

} // verus!
