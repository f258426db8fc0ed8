//! Work-stealing queues of block mutations: one shared global queue and one
//! local queue per worker. A worker takes from its own queue first, then a
//! batch from the global queue, then one task from a peer, peers taken in a
//! fixed rotation that starts after the worker itself.

use vstd::prelude::*;
use std::collections::VecDeque;
use vstd::multiset::Multiset;
use vstd::seq_lib::lemma_multiset_commutative;

verus! {

broadcast use
    vstd::seq_lib::group_to_multiset_ensures,
    vstd::multiset::group_multiset_axioms,
    vstd::multiset::group_multiset_properties,
;

/// The most tasks that a worker moves out of the global queue at once.
pub const STEAL_BATCH: usize = 16;

/// A request to store palette index `index` at block `(x, y, z)`; `id`
/// tells requests apart.
#[derive(Debug, Clone, Copy, PartialEq, Eq, Structural)]
pub struct Task {
    pub id: u64,
    pub x: u8,
    pub y: u8,
    pub z: u8,
    pub index: u64,
}

/// Where a worker found the task that it was handed.
#[derive(Debug, Clone, Copy, PartialEq, Eq, Structural)]
pub enum TaskSource {
    /// The front of its own queue.
    Local,
    /// The front of the global queue, with the rest of the batch moved to
    /// its own queue.
    Global,
    /// The back of the queue of the peer with this number.
    Peer(usize),
}

/// Everything queued in a sequence of queues.
pub open spec fn queued(queues: Seq<Seq<Task>>) -> Multiset<Task>
    decreases queues.len(),
{
    if queues.len() == 0 {
        Multiset::empty()
    } else {
        queued(queues.drop_last()).add(queues.last().to_multiset())
    }
}

/// How far peer `p` comes after worker `w` in the rotation over `n` workers.
pub open spec fn rotation_distance(w: int, p: int, n: int) -> int {
    if p > w {
        p - w - 1
    } else {
        p + n - w - 1
    }
}

/// Replacing one queue changes what is queued by exactly that queue.
pub proof fn lemma_queued_update(queues: Seq<Seq<Task>>, w: int, q: Seq<Task>)
    requires
        0 <= w < queues.len(),
    ensures
        queued(queues.update(w, q)).add(queues[w].to_multiset()) =~= queued(queues).add(
            q.to_multiset(),
        ),
    decreases queues.len(),
{
    let u = queues.update(w, q);
    let dl = queues.drop_last();
    assert(queued(u) == queued(u.drop_last()).add(u.last().to_multiset()));
    assert(queued(queues) == queued(dl).add(queues.last().to_multiset()));
    if w == queues.len() - 1 {
        assert(u.drop_last() =~= dl);
        assert(u.last() == q);
        let a = queued(dl);
        let b = q.to_multiset();
        let c = queues[w].to_multiset();
        assert(a.add(b).add(c) =~= a.add(c).add(b));
    } else {
        assert(u.drop_last() =~= dl.update(w, q));
        assert(u.last() == queues.last());
        lemma_queued_update(dl, w, q);
        let a = queued(dl.update(w, q));
        let l = queues.last().to_multiset();
        let qw = queues[w].to_multiset();
        assert(dl[w] == queues[w]);
        assert(a.add(qw) == queued(dl).add(q.to_multiset()));
        assert forall|x: Task| #[trigger] a.add(l).add(qw).count(x) == queued(dl).add(l).add(
            q.to_multiset(),
        ).count(x) by {
            assert(a.add(qw).count(x) == queued(dl).add(q.to_multiset()).count(x));
        }
        assert(a.add(l).add(qw) =~= queued(dl).add(l).add(q.to_multiset()));
    }
}

proof fn lemma_cancel(a: Multiset<Task>, b: Multiset<Task>, c: Multiset<Task>, t: Task)
    requires
        a.add(c.insert(t)) == b.add(c),
    ensures
        b == a.insert(t),
{
    assert forall|x: Task| b.count(x) == #[trigger] a.insert(t).count(x) by {
        assert(a.add(c.insert(t)).count(x) == b.add(c).count(x));
        assert(a.add(c.insert(t)).count(x) == a.count(x) + c.insert(t).count(x));
        assert(b.add(c).count(x) == b.count(x) + c.count(x));
        if x == t {
            assert(c.insert(t).count(x) == c.count(x) + 1);
            assert(a.insert(t).count(x) == a.count(x) + 1);
        } else {
            assert(c.insert(t).count(x) == c.count(x));
            assert(a.insert(t).count(x) == a.count(x));
        }
    }
    assert(b =~= a.insert(t));
}

/// Empty queues hold nothing.
pub proof fn lemma_queued_empty(queues: Seq<Seq<Task>>)
    requires
        forall|i: int| 0 <= i < queues.len() ==> (#[trigger] queues[i]).len() == 0,
    ensures
        queued(queues) =~= Multiset::empty(),
    decreases queues.len(),
{
    if queues.len() > 0 {
        assert(queues.last() =~= Seq::<Task>::empty());
        lemma_queued_empty(queues.drop_last());
    }
}

/// The global queue and each worker's local queue.
pub struct Scheduler {
    global: VecDeque<Task>,
    locals: Vec<VecDeque<Task>>,
}

impl Scheduler {
    /// The global queue, front first.
    pub closed spec fn global_queue(&self) -> Seq<Task> {
        self.global@
    }

    /// Each worker's local queue, front first.
    pub closed spec fn local_queues(&self) -> Seq<Seq<Task>> {
        self.locals@.map_values(|q: VecDeque<Task>| q@)
    }

    /// The number of workers.
    pub open spec fn workers(&self) -> nat {
        self.local_queues().len()
    }

    /// Every task waiting in some queue.
    pub open spec fn pending(&self) -> Multiset<Task> {
        self.global_queue().to_multiset().add(queued(self.local_queues()))
    }

    fn local_push_back(&mut self, w: usize, t: Task)
        requires
            w < old(self).workers(),
        ensures
            final(self).global_queue() == old(self).global_queue(),
            final(self).local_queues() == old(self).local_queues().update(
                w as int,
                old(self).local_queues()[w as int].push(t),
            ),
    {
        let ghost before = self.locals@;
        self.locals[w].push_back(t);
        proof {
            assert(self.locals@ == before.update(w as int, self.locals@[w as int]));
            assert(self.local_queues() =~= old(self).local_queues().update(
                w as int,
                old(self).local_queues()[w as int].push(t),
            ));
        }
    }

    fn local_pop_front(&mut self, w: usize) -> (r: Option<Task>)
        requires
            w < old(self).workers(),
        ensures
            final(self).global_queue() == old(self).global_queue(),
            match r {
                Some(t) => {
                    let q = old(self).local_queues()[w as int];
                    &&& q.len() > 0
                    &&& t == q[0]
                    &&& final(self).local_queues() == old(self).local_queues().update(
                        w as int,
                        q.drop_first(),
                    )
                },
                None => {
                    &&& old(self).local_queues()[w as int].len() == 0
                    &&& final(self).local_queues() == old(self).local_queues()
                },
            },
    {
        let ghost before = self.locals@;
        let r = self.locals[w].pop_front();
        proof {
            assert(self.locals@ == before.update(w as int, self.locals@[w as int]));
            let q = old(self).local_queues()[w as int];
            if r is Some {
                assert(self.local_queues() =~= old(self).local_queues().update(
                    w as int,
                    q.drop_first(),
                ));
            } else {
                assert(self.local_queues() =~= old(self).local_queues());
            }
        }
        r
    }

    fn local_pop_back(&mut self, w: usize) -> (r: Option<Task>)
        requires
            w < old(self).workers(),
        ensures
            final(self).global_queue() == old(self).global_queue(),
            match r {
                Some(t) => {
                    let q = old(self).local_queues()[w as int];
                    &&& q.len() > 0
                    &&& t == q.last()
                    &&& final(self).local_queues() == old(self).local_queues().update(
                        w as int,
                        q.drop_last(),
                    )
                },
                None => {
                    &&& old(self).local_queues()[w as int].len() == 0
                    &&& final(self).local_queues() == old(self).local_queues()
                },
            },
    {
        let ghost before = self.locals@;
        let r = self.locals[w].pop_back();
        proof {
            assert(self.locals@ == before.update(w as int, self.locals@[w as int]));
            let q = old(self).local_queues()[w as int];
            if r is Some {
                assert(self.local_queues() =~= old(self).local_queues().update(
                    w as int,
                    q.drop_last(),
                ));
            } else {
                assert(self.local_queues() =~= old(self).local_queues());
            }
        }
        r
    }

    /// Queues for `workers` workers, all empty.
    pub fn new(workers: usize) -> (r: Scheduler)
        requires
            workers >= 1,
        ensures
            r.workers() == workers,
            r.global_queue().len() == 0,
            forall|i: int| 0 <= i < workers ==> (#[trigger] r.local_queues()[i]).len() == 0,
            r.pending().len() == 0,
    {
        let mut locals: Vec<VecDeque<Task>> = Vec::new();
        let mut i: usize = 0;
        while i < workers
            invariant
                i <= workers,
                locals@.len() == i,
                forall|j: int| 0 <= j < i ==> (#[trigger] locals@[j])@.len() == 0,
            decreases workers - i,
        {
            locals.push(VecDeque::new());
            i = i + 1;
        }
        let r = Scheduler { global: VecDeque::new(), locals };
        proof {
            lemma_queued_empty(r.local_queues());
        }
        r
    }

    /// The number of workers.
    pub fn worker_count(&self) -> (r: usize)
        ensures
            r == self.workers(),
    {
        self.locals.len()
    }

    /// Adds `task` at the back of the global queue.
    pub fn submit(&mut self, task: Task)
        ensures
            final(self).global_queue() == old(self).global_queue().push(task),
            final(self).local_queues() == old(self).local_queues(),
            final(self).pending() == old(self).pending().insert(task),
    {
        self.global.push_back(task);
        proof {
            assert(self.local_queues() =~= old(self).local_queues());
        }
    }

    /// Puts back at the end of `worker`'s own queue a task that it could not
    /// carry out yet.
    pub fn requeue(&mut self, worker: usize, task: Task)
        requires
            worker < old(self).workers(),
        ensures
            final(self).global_queue() == old(self).global_queue(),
            final(self).local_queues() == old(self).local_queues().update(
                worker as int,
                old(self).local_queues()[worker as int].push(task),
            ),
            final(self).pending() == old(self).pending().insert(task),
    {
        let ghost before = self.local_queues();
        self.local_push_back(worker, task);
        proof {
            let q = before[worker as int].push(task);
            lemma_queued_update(before, worker as int, q);
            lemma_cancel(
                queued(before),
                queued(self.local_queues()),
                before[worker as int].to_multiset(),
                task,
            );
            assert(self.pending() =~= old(self).pending().insert(task));
        }
    }

    /// Hands `worker` its next task: the front of its own queue; else the
    /// front of the global queue, moving the rest of a batch of up to
    /// `STEAL_BATCH` tasks into its own queue; else the back of the first
    /// peer queue in the rotation that holds a task. `None` when every queue
    /// is empty.
    pub fn next_task(&mut self, worker: usize) -> (r: Option<(Task, TaskSource)>)
        requires
            worker < old(self).workers(),
        ensures
            final(self).workers() == old(self).workers(),
            ({
                let g = old(self).global_queue();
                let ls = old(self).local_queues();
                let w = worker as int;
                let n = old(self).workers() as int;
                match r {
                    None => {
                        &&& old(self).pending().len() == 0
                        &&& final(self).global_queue() == g
                        &&& final(self).local_queues() == ls
                    },
                    Some((t, TaskSource::Local)) => {
                        &&& ls[w].len() > 0
                        &&& t == ls[w][0]
                        &&& final(self).global_queue() == g
                        &&& final(self).local_queues() == ls.update(w, ls[w].drop_first())
                    },
                    Some((t, TaskSource::Global)) => {
                        let b = if g.len() < STEAL_BATCH {
                            g.len() as int
                        } else {
                            STEAL_BATCH as int
                        };
                        &&& ls[w].len() == 0
                        &&& g.len() > 0
                        &&& t == g[0]
                        &&& final(self).global_queue() == g.subrange(b, g.len() as int)
                        &&& final(self).local_queues() == ls.update(w, g.subrange(1, b))
                    },
                    Some((t, TaskSource::Peer(p))) => {
                        &&& ls[w].len() == 0
                        &&& g.len() == 0
                        &&& (p as int) < n
                        &&& p as int != w
                        &&& ls[p as int].len() > 0
                        &&& forall|q: int|
                            0 <= q < n && q != w && rotation_distance(w, q, n) < rotation_distance(
                                w,
                                p as int,
                                n,
                            ) ==> (#[trigger] old(self).local_queues()[q]).len() == 0
                        &&& t == ls[p as int].last()
                        &&& final(self).global_queue() == g
                        &&& final(self).local_queues() == ls.update(
                            p as int,
                            ls[p as int].drop_last(),
                        )
                    },
                }
            }),
            r matches Some((t, _)) ==> old(self).pending() == final(self).pending().insert(t),
    {
        let ghost ls = self.local_queues();
        let ghost g = self.global_queue();
        let n = self.locals.len();
        let w = worker;
        if let Some(t) = self.local_pop_front(w) {
            proof {
                let q = ls[w as int].drop_first();
                lemma_queued_update(ls, w as int, q);
                assert(ls[w as int] =~= seq![t] + q);
                lemma_multiset_commutative(seq![t], q);
                assert(ls[w as int].to_multiset() =~= q.to_multiset().insert(t));
                lemma_cancel(
                    queued(self.local_queues()),
                    queued(ls),
                    q.to_multiset(),
                    t,
                );
                assert(old(self).pending() =~= self.pending().insert(t));
            }
            return Some((t, TaskSource::Local));
        }
        if let Some(t) = self.global.pop_front() {
            let rest = self.global.len();
            let b: usize = if rest < STEAL_BATCH - 1 {
                rest + 1
            } else {
                STEAL_BATCH
            };
            proof {
                assert(ls[w as int].len() == 0);
                assert(g.subrange(1, 1) =~= ls[w as int]);
                assert(self.local_queues() =~= ls.update(w as int, g.subrange(1, 1)));
                assert(self.global@ =~= g.subrange(1, g.len() as int));
            }
            let mut k: usize = 1;
            while k < b
                invariant
                    1 <= k <= b,
                    b <= g.len(),
                    b == (if g.len() < STEAL_BATCH {
                        g.len() as int
                    } else {
                        STEAL_BATCH as int
                    }),
                    w < n,
                    n == self.locals@.len(),
                    ls.len() == n,
                    ls == old(self).local_queues(),
                    g == old(self).global_queue(),
                    self.global@ == g.subrange(k as int, g.len() as int),
                    self.local_queues() == ls.update(w as int, g.subrange(1, k as int)),
                decreases b - k,
            {
                let x = self.global.pop_front();
                match x {
                    Some(x) => {
                        assert(x == g[k as int]);
                        self.local_push_back(w, x);
                        proof {
                            assert(g.subrange(1, k as int).push(x) =~= g.subrange(1, k + 1));
                            assert(self.local_queues() =~= ls.update(
                                w as int,
                                g.subrange(1, k + 1),
                            ));
                            assert(self.global@ =~= g.subrange(k + 1, g.len() as int));
                        }
                    },
                    None => {},
                }
                k = k + 1;
            }
            proof {
                let q = g.subrange(1, b as int);
                let rest = g.subrange(b as int, g.len() as int);
                assert(ls[w as int] =~= Seq::<Task>::empty());
                lemma_queued_update(ls, w as int, q);
                assert(g =~= seq![t] + (q + rest));
                lemma_multiset_commutative(seq![t], q + rest);
                lemma_multiset_commutative(q, rest);
                assert(Seq::<Task>::empty().to_multiset() =~= Multiset::empty());
                assert(self.global@ == rest);
                assert(queued(self.local_queues()) =~= queued(ls).add(q.to_multiset()));
                assert(old(self).pending() =~= self.pending().insert(t));
            }
            return Some((t, TaskSource::Global));
        }
        let mut i: usize = 0;
        while i + 1 < n
            invariant
                w < n,
                n == self.locals@.len(),
                ls.len() == n,
                ls == old(self).local_queues(),
                g == old(self).global_queue(),
                w == worker,
                n == old(self).workers(),
                i + 1 <= n,
                self.local_queues() == ls,
                self.global@ == g,
                g.len() == 0,
                ls[w as int].len() == 0,
                forall|q: int|
                    0 <= q < n && q != w && rotation_distance(w as int, q, n as int) < i ==> (
                    #[trigger] ls[q]).len() == 0,
            decreases n - i,
        {
            let p: usize = if i < n - 1 - w {
                w + 1 + i
            } else {
                i - (n - 1 - w)
            };
            assert(rotation_distance(w as int, p as int, n as int) == i);
            assert(p < n && p != w);
            if let Some(t) = self.local_pop_back(p) {
                proof {
                    let q = ls[p as int].drop_last();
                    lemma_queued_update(ls, p as int, q);
                    assert(ls[p as int] =~= q.push(t));
                    lemma_cancel(
                        queued(self.local_queues()),
                        queued(ls),
                        q.to_multiset(),
                        t,
                    );
                    assert(old(self).pending() =~= self.pending().insert(t));
                }
                return Some((t, TaskSource::Peer(p)));
            }
            i = i + 1;
        }
        proof {
            assert forall|q: int| 0 <= q < n implies (#[trigger] ls[q]).len() == 0 by {
                if q != w {
                    assert(rotation_distance(w as int, q, n as int) < n - 1);
                }
            }
            lemma_queued_empty(ls);
        }
        None
    }
}

} // verus!
