//! The elementary transitions of the kernel state, each with the proof that
//! it keeps the invariant, and the executable code that performs it.

use vstd::prelude::*;
use crate::deadlock::{
    held_by, held_total, lemma_held_change, lemma_held_member, lemma_held_same, lemma_held_zero,
};
use crate::kernel::{Kernel, KernelView};
use crate::sync::condvar::CondvarView;
use crate::sync::mutex::MutexView;
use crate::sync::semaphore::SemaphoreView;
use crate::task::context::TaskContext;
use crate::task::process::ProcessView;
use crate::task::task::{Pending, TaskControlBlock, TaskStatus};
use crate::timer::Timer;

verus! {

impl KernelView {
    /// The state in which task `t` has the given status and pending request.
    pub open spec fn with_task_state(self, t: usize, status: TaskStatus, pend: Pending) -> KernelView {
        let tcb = self.process.tasks[t as int];
        KernelView {
            process: ProcessView {
                tasks: self.process.tasks.update(
                    t as int,
                    TaskControlBlock { task_status: status, pending: pend, ..tcb },
                ),
                ..self.process
            },
            ..self
        }
    }

    /// The state in which task `t` does not run.
    pub open spec fn without_current(self, t: usize) -> KernelView {
        if self.current == Some(t) {
            KernelView { current: None, ..self }
        } else {
            self
        }
    }

    /// The state in which the mutex slot `m` holds `mx`.
    pub open spec fn with_mutex(self, m: usize, mx: MutexView) -> KernelView {
        KernelView {
            process: ProcessView {
                mutex_list: self.process.mutex_list.update(m as int, Some(mx)),
                ..self.process
            },
            ..self
        }
    }

    /// The state in which task `t` is recorded as asking for `req`.
    pub open spec fn with_mutex_request(self, t: usize, req: Option<usize>) -> KernelView {
        KernelView {
            process: ProcessView {
                mutex_request: self.process.mutex_request.update(t as int, req),
                ..self.process
            },
            ..self
        }
    }

    /// The state in which `holder` is recorded as the holder of mutex `m`.
    pub open spec fn with_mutex_alloc(self, m: usize, holder: Option<usize>) -> KernelView {
        KernelView {
            process: ProcessView {
                mutex_alloc: self.process.mutex_alloc.update(m as int, holder),
                ..self.process
            },
            ..self
        }
    }

    /// The state with `t` added at the back of the ready queue.
    pub open spec fn with_ready_pushed(self, t: usize) -> KernelView {
        KernelView { ready: self.ready.push(t), ..self }
    }

    /// Task `t` exists, is neither blocked nor exited, and is not in the ready
    /// queue: it is in no queue at all.
    pub open spec fn detached(self, t: usize) -> bool {
        &&& t < self.process.tasks.len()
        &&& self.process.tasks[t as int].task_status != TaskStatus::Blocked
        &&& self.process.tasks[t as int].task_status != TaskStatus::Exited
        &&& !self.ready.contains(t)
    }

    /// Task `t` waits for nothing, or for mutex `m` only.
    pub open spec fn wants_at_most_mutex(self, t: usize, m: usize) -> bool {
        self.process.tasks[t as int].pending == Pending::Nothing
            || self.process.tasks[t as int].pending == Pending::Mutex(m)
    }

    /// Task `t` becomes ready, still wanting `pend`, and joins the ready queue.
    pub open spec fn enqueue_ready(self, t: usize, pend: Pending) -> KernelView {
        self.with_task_state(t, TaskStatus::Ready, pend).with_ready_pushed(t).without_current(t)
    }

    /// Task `t` blocks in the queue of mutex `m`.
    pub open spec fn park_on_mutex(self, t: usize, m: usize) -> KernelView {
        let mx = self.process.mutex_list[m as int]->0;
        self.with_mutex(m, MutexView { wait_queue: mx.wait_queue.push(t), ..mx }).with_task_state(
            t,
            TaskStatus::Blocked,
            Pending::Mutex(m),
        ).without_current(t)
    }

    /// Task `t` takes the free mutex `m`.
    pub open spec fn grant_mutex(self, t: usize, m: usize) -> KernelView {
        let mx = self.process.mutex_list[m as int]->0;
        self.with_mutex(m, MutexView { locked: true, ..mx }).with_mutex_alloc(
            m,
            Some(t),
        ).with_mutex_request(t, None).with_task_state(
            t,
            self.process.tasks[t as int].task_status,
            Pending::Nothing,
        )
    }

    /// The mutex `m` becomes free.
    pub open spec fn release_mutex(self, m: usize) -> KernelView {
        let mx = self.process.mutex_list[m as int]->0;
        self.with_mutex(m, MutexView { locked: false, ..mx }).with_mutex_alloc(m, None)
    }

    /// The first task in the queue of mutex `m`, if any, becomes ready; it
    /// still wants the mutex.
    pub open spec fn wake_mutex_waiter(self, m: usize) -> KernelView {
        let mx = self.process.mutex_list[m as int]->0;
        if mx.wait_queue.len() == 0 {
            self
        } else {
            let w = mx.wait_queue[0];
            self.with_mutex(
                m,
                MutexView { wait_queue: mx.wait_queue.drop_first(), ..mx },
            ).with_task_state(w, TaskStatus::Ready, Pending::Mutex(m)).with_ready_pushed(w)
        }
    }

    /// The ready queue without its first task.
    pub open spec fn pop_ready(self) -> KernelView {
        KernelView { ready: self.ready.drop_first(), ..self }
    }

    /// Task `t` runs; the time of its first dispatch is kept, and so is what
    /// the task still has to obtain.
    pub open spec fn dispatch(self, t: usize, now_us: usize) -> KernelView {
        let tcb = self.process.tasks[t as int];
        KernelView {
            process: ProcessView {
                tasks: self.process.tasks.update(
                    t as int,
                    TaskControlBlock {
                        task_status: TaskStatus::Running,
                        start_time: if tcb.start_time is None {
                            Some(now_us)
                        } else {
                            tcb.start_time
                        },
                        ..tcb
                    },
                ),
                ..self.process
            },
            current: Some(t),
            ..self
        }
    }
}

/// A sequence without its first element has no duplicates and does not hold that element.
pub proof fn lemma_drop_first_no_duplicates(q: Seq<usize>)
    requires
        q.no_duplicates(),
        q.len() > 0,
    ensures
        q.drop_first().no_duplicates(),
        !q.drop_first().contains(q[0]),
        forall|i: int| 0 <= i < q.drop_first().len() ==> q.drop_first()[i] == q[i + 1],
{
    let r = q.drop_first();
    assert forall|i: int, j: int| 0 <= i < r.len() && 0 <= j < r.len() && i != j implies r[i]
        != r[j] by {
        assert(r[i] == q[i + 1] && r[j] == q[j + 1]);
    }
    if r.contains(q[0]) {
        let i = choose|i: int| 0 <= i < r.len() && r[i] == q[0];
        assert(r[i] == q[i + 1]);
    }
}

/// Adding an element that is not there keeps a sequence free of duplicates.
pub proof fn lemma_push_no_duplicates(q: Seq<usize>, t: usize)
    requires
        q.no_duplicates(),
        !q.contains(t),
    ensures
        q.push(t).no_duplicates(),
{
    let r = q.push(t);
    assert forall|i: int, j: int| 0 <= i < r.len() && 0 <= j < r.len() && i != j implies r[i]
        != r[j] by {
        if i == q.len() {
            assert(q.contains(q[j]));
        } else if j == q.len() {
            assert(q.contains(q[i]));
        }
    }
}

/// Making a detached task ready keeps the invariant.
pub proof fn lemma_enqueue_ready(k: KernelView, t: usize, pend: Pending)
    requires
        k.wf(),
        k.detached(t),
        k.process.tasks[t as int].pending == Pending::Nothing
            || k.process.tasks[t as int].pending == pend,
        pend == Pending::Nothing || (pend matches Pending::Mutex(m) && k.has_mutex(m)
            && k.process.mutex_request[t as int] == Some(m)),
    ensures
        k.enqueue_ready(t, pend).wf(),
{
    let k2 = k.enqueue_ready(t, pend);
    lemma_push_no_duplicates(k.ready, t);
    assert forall|u: int| 0 <= u < k2.process.tasks.len() implies #[trigger] k2.task_ok(u) by {
        assert(k.task_ok(u));
    }
    assert forall|m: int| 0 <= m < k2.process.mutex_list.len() implies #[trigger] k2.mutex_ok(
        m,
    ) by {
        assert(k.mutex_ok(m));
    }
    assert forall|s: int| 0 <= s < k2.process.semaphore_list.len() implies #[trigger] k2.semaphore_ok(
        s,
    ) by {
        assert(k.semaphore_ok(s));
    }
    assert forall|c: int| 0 <= c < k2.process.condvar_list.len() implies #[trigger] k2.condvar_ok(
        c,
    ) by {
        assert(k.condvar_ok(c));
    }
    assert(k2.ready_ok()) by {
        assert forall|i: int| 0 <= i < k2.ready.len() implies (#[trigger] k2.ready[i])
            < k2.process.tasks.len() && k2.process.tasks[k2.ready[i] as int].task_status
            == TaskStatus::Ready by {
            if i < k.ready.len() {
                assert(k.ready[i] == k2.ready[i]);
                assert(k.ready.contains(k.ready[i]));
            }
        }
    }
    assert(k2.timers_ok());
}

impl KernelView {
    /// The state in which the semaphore slot `s` holds `sem`.
    pub open spec fn with_semaphore(self, s: usize, sem: SemaphoreView) -> KernelView {
        KernelView {
            process: ProcessView {
                semaphore_list: self.process.semaphore_list.update(s as int, Some(sem)),
                ..self.process
            },
            ..self
        }
    }

    /// The state in which the condition variable slot `c` holds `cv`.
    pub open spec fn with_condvar(self, c: usize, cv: CondvarView) -> KernelView {
        KernelView {
            process: ProcessView {
                condvar_list: self.process.condvar_list.update(c as int, Some(cv)),
                ..self.process
            },
            ..self
        }
    }

    /// The state in which task `t` is recorded as waiting for semaphore `req`.
    pub open spec fn with_sem_request(self, t: usize, req: Option<usize>) -> KernelView {
        KernelView {
            process: ProcessView {
                sem_request: self.process.sem_request.update(t as int, req),
                ..self.process
            },
            ..self
        }
    }

    /// The state in which `avail` instances of semaphore `s` are available and
    /// task `t` holds `held` of them.
    pub open spec fn with_sem_counts(self, t: usize, s: usize, avail: usize, held: usize) -> KernelView {
        KernelView {
            process: ProcessView {
                sem_avail: self.process.sem_avail.update(s as int, avail),
                sem_alloc: self.process.sem_alloc.update(
                    t as int,
                    self.process.sem_alloc[t as int].update(s as int, held),
                ),
                ..self.process
            },
            ..self
        }
    }

    /// Task `t` waits for nothing, or for semaphore `s` only.
    pub open spec fn wants_at_most_semaphore(self, t: usize, s: usize) -> bool {
        self.process.tasks[t as int].pending == Pending::Nothing
            || self.process.tasks[t as int].pending == Pending::Semaphore(s)
    }

    /// Task `t` blocks in the queue of semaphore `s`.
    pub open spec fn park_on_semaphore(self, t: usize, s: usize) -> KernelView {
        let sem = self.process.semaphore_list[s as int]->0;
        self.with_semaphore(
            s,
            SemaphoreView { wait_queue: sem.wait_queue.push(t), ..sem },
        ).with_sem_request(t, Some(s)).with_task_state(
            t,
            TaskStatus::Blocked,
            Pending::Semaphore(s),
        ).without_current(t)
    }

    /// Task `t` blocks in the queue of condition variable `c`, to take mutex `m` afterwards.
    pub open spec fn park_on_condvar(self, t: usize, c: usize, m: usize) -> KernelView {
        let cv = self.process.condvar_list[c as int]->0;
        self.with_condvar(c, CondvarView { wait_queue: cv.wait_queue.push(t) }).with_task_state(
            t,
            TaskStatus::Blocked,
            Pending::Condvar(c, m),
        ).without_current(t)
    }

    /// Task `t` blocks until the time `expire_ms`.
    pub open spec fn park_on_timer(self, t: usize, expire_ms: usize) -> KernelView {
        KernelView {
            timers: self.timers.push(Timer { expire_ms, tid: t }),
            ..self
        }.with_task_state(t, TaskStatus::Blocked, Pending::Sleep(expire_ms)).without_current(t)
    }

    /// Task `t` takes one instance of semaphore `s`.
    pub open spec fn grant_semaphore(self, t: usize, s: usize) -> KernelView {
        let sem = self.process.semaphore_list[s as int]->0;
        self.with_semaphore(
            s,
            SemaphoreView { count: (sem.count - 1) as usize, ..sem },
        ).with_sem_counts(
            t,
            s,
            (self.process.sem_avail[s as int] - 1) as usize,
            (self.process.sem_alloc[t as int][s as int] + 1) as usize,
        ).with_sem_request(t, None).with_task_state(
            t,
            self.process.tasks[t as int].task_status,
            Pending::Nothing,
        )
    }

    /// Task `t` puts one instance into semaphore `s`: one that it holds, if it
    /// holds any, else a new one.
    pub open spec fn return_semaphore(self, t: usize, s: usize) -> KernelView {
        let p = self.process;
        let sem = p.semaphore_list[s as int]->0;
        let held = p.sem_alloc[t as int][s as int];
        let k = self.with_semaphore(s, SemaphoreView { count: (sem.count + 1) as usize, ..sem });
        if held > 0 {
            k.with_sem_counts(t, s, (p.sem_avail[s as int] + 1) as usize, (held - 1) as usize)
        } else {
            let k2 = k.with_sem_counts(t, s, (p.sem_avail[s as int] + 1) as usize, held);
            KernelView {
                process: ProcessView {
                    sem_total: p.sem_total.update(s as int, (p.sem_total[s as int] + 1) as usize),
                    ..k2.process
                },
                ..k2
            }
        }
    }

    /// The first task in the queue of semaphore `s`, if any, becomes ready; it
    /// still wants an instance.
    pub open spec fn wake_semaphore_waiter(self, s: usize) -> KernelView {
        let sem = self.process.semaphore_list[s as int]->0;
        if sem.wait_queue.len() == 0 {
            self
        } else {
            let w = sem.wait_queue[0];
            self.with_semaphore(
                s,
                SemaphoreView { wait_queue: sem.wait_queue.drop_first(), ..sem },
            ).with_task_state(w, TaskStatus::Ready, Pending::Semaphore(s)).with_ready_pushed(w)
        }
    }

    /// The first task in the queue of condition variable `c`, if any, becomes
    /// ready and from now on asks for its mutex.
    pub open spec fn wake_condvar_waiter(self, c: usize) -> KernelView {
        let cv = self.process.condvar_list[c as int]->0;
        if cv.wait_queue.len() == 0 {
            self
        } else {
            let w = cv.wait_queue[0];
            let m = self.process.tasks[w as int].pending->Condvar_1;
            self.with_condvar(
                c,
                CondvarView { wait_queue: cv.wait_queue.drop_first() },
            ).with_mutex_request(w, Some(m)).with_task_state(
                w,
                TaskStatus::Ready,
                Pending::Mutex(m),
            ).with_ready_pushed(w)
        }
    }

    /// The timer at index `i` is removed and its task becomes ready.
    pub open spec fn wake_timer(self, i: int) -> KernelView {
        let w = self.timers[i].tid;
        KernelView { timers: self.timers.remove(i), ..self }.with_task_state(
            w,
            TaskStatus::Ready,
            Pending::Nothing,
        ).with_ready_pushed(w)
    }

    /// The running task exits with `code`; what it asked for is forgotten.
    pub open spec fn exit_current(self, code: i32) -> KernelView {
        let t = self.current->0;
        let tcb = self.process.tasks[t as int];
        KernelView {
            process: ProcessView {
                tasks: self.process.tasks.update(
                    t as int,
                    TaskControlBlock {
                        task_status: TaskStatus::Exited,
                        exit_code: Some(code),
                        ..tcb
                    },
                ),
                mutex_request: self.process.mutex_request.update(t as int, None),
                ..self.process
            },
            current: None,
            ..self
        }
    }

    /// A new task with the saved context `cx` is added; its id is the number
    /// of tasks before.
    pub open spec fn spawn(self, cx: TaskContext) -> KernelView {
        let p = self.process;
        KernelView {
            process: ProcessView {
                tasks: p.tasks.push(TaskControlBlock::spec_new(p.tasks.len() as usize, cx)),
                mutex_request: p.mutex_request.push(None),
                sem_request: p.sem_request.push(None),
                sem_alloc: p.sem_alloc.push(Seq::new(p.semaphore_list.len(), |s: int| 0usize)),
                ..p
            },
            ..self
        }
    }
}

/// Blocking a detached task in the queue of a blocking mutex keeps the invariant.
pub proof fn lemma_park_on_mutex(k: KernelView, t: usize, m: usize)
    requires
        k.wf(),
        k.detached(t),
        k.process.tasks[t as int].task_status != TaskStatus::UnInit,
        k.has_mutex(m),
        k.process.mutex_list[m as int]->0.blocking,
        k.process.mutex_request[t as int] == Some(m),
        k.wants_at_most_mutex(t, m),
    ensures
        k.park_on_mutex(t, m).wf(),
{
    let k2 = k.park_on_mutex(t, m);
    let q = k.process.mutex_list[m as int]->0.wait_queue;
    assert(k.mutex_ok(m as int));
    if q.contains(t) {
        let i = choose|i: int| 0 <= i < q.len() && q[i] == t;
        assert(k.waits(q[i] as int, Pending::Mutex(m)));
    }
    lemma_push_no_duplicates(q, t);
    assert forall|u: int| 0 <= u < k2.process.tasks.len() implies #[trigger] k2.task_ok(u) by {
        assert(k.task_ok(u));
    }
    assert forall|j: int| 0 <= j < k2.process.mutex_list.len() implies #[trigger] k2.mutex_ok(
        j,
    ) by {
        assert(k.mutex_ok(j));
    }
    assert forall|s: int| 0 <= s < k2.process.semaphore_list.len() implies #[trigger] k2.semaphore_ok(
        s,
    ) by {
        assert(k.semaphore_ok(s));
    }
    assert forall|c: int| 0 <= c < k2.process.condvar_list.len() implies #[trigger] k2.condvar_ok(
        c,
    ) by {
        assert(k.condvar_ok(c));
    }
    assert(k2.ready_ok()) by {
        assert forall|i: int| 0 <= i < k2.ready.len() implies (#[trigger] k2.ready[i])
            < k2.process.tasks.len() && k2.process.tasks[k2.ready[i] as int].task_status
            == TaskStatus::Ready by {
            assert(k.ready.contains(k.ready[i]));
        }
    }
    assert(k2.timers_ok());
}

/// Blocking a detached task in the queue of a semaphore keeps the invariant.
pub proof fn lemma_park_on_semaphore(k: KernelView, t: usize, s: usize)
    requires
        k.wf(),
        k.detached(t),
        k.process.tasks[t as int].task_status != TaskStatus::UnInit,
        k.has_semaphore(s),
        k.wants_at_most_semaphore(t, s),
    ensures
        k.park_on_semaphore(t, s).wf(),
{
    let k2 = k.park_on_semaphore(t, s);
    let q = k.process.semaphore_list[s as int]->0.wait_queue;
    assert(k.semaphore_ok(s as int));
    if q.contains(t) {
        let i = choose|i: int| 0 <= i < q.len() && q[i] == t;
        assert(k.waits(q[i] as int, Pending::Semaphore(s)));
    }
    lemma_push_no_duplicates(q, t);
    assert forall|u: int| 0 <= u < k2.process.tasks.len() implies #[trigger] k2.task_ok(u) by {
        assert(k.task_ok(u));
    }
    assert forall|j: int| 0 <= j < k2.process.mutex_list.len() implies #[trigger] k2.mutex_ok(
        j,
    ) by {
        assert(k.mutex_ok(j));
    }
    assert forall|j: int| 0 <= j < k2.process.semaphore_list.len() implies #[trigger] k2.semaphore_ok(
        j,
    ) by {
        assert(k.semaphore_ok(j));
    }
    assert forall|c: int| 0 <= c < k2.process.condvar_list.len() implies #[trigger] k2.condvar_ok(
        c,
    ) by {
        assert(k.condvar_ok(c));
    }
    assert(k2.ready_ok()) by {
        assert forall|i: int| 0 <= i < k2.ready.len() implies (#[trigger] k2.ready[i])
            < k2.process.tasks.len() && k2.process.tasks[k2.ready[i] as int].task_status
            == TaskStatus::Ready by {
            assert(k.ready.contains(k.ready[i]));
        }
    }
    assert(k2.timers_ok());
}

/// Blocking a detached task in the queue of a condition variable keeps the invariant.
pub proof fn lemma_park_on_condvar(k: KernelView, t: usize, c: usize, m: usize)
    requires
        k.wf(),
        k.detached(t),
        k.process.tasks[t as int].task_status != TaskStatus::UnInit,
        k.has_condvar(c),
        k.has_mutex(m),
        k.process.tasks[t as int].pending == Pending::Nothing,
    ensures
        k.park_on_condvar(t, c, m).wf(),
{
    let k2 = k.park_on_condvar(t, c, m);
    let q = k.process.condvar_list[c as int]->0.wait_queue;
    assert(k.condvar_ok(c as int));
    if q.contains(t) {
        let i = choose|i: int| 0 <= i < q.len() && q[i] == t;
        assert(k.waits_on_condvar(q[i] as int, c as int));
    }
    lemma_push_no_duplicates(q, t);
    assert forall|u: int| 0 <= u < k2.process.tasks.len() implies #[trigger] k2.task_ok(u) by {
        assert(k.task_ok(u));
    }
    assert forall|j: int| 0 <= j < k2.process.mutex_list.len() implies #[trigger] k2.mutex_ok(
        j,
    ) by {
        assert(k.mutex_ok(j));
    }
    assert forall|j: int| 0 <= j < k2.process.semaphore_list.len() implies #[trigger] k2.semaphore_ok(
        j,
    ) by {
        assert(k.semaphore_ok(j));
    }
    assert forall|j: int| 0 <= j < k2.process.condvar_list.len() implies #[trigger] k2.condvar_ok(
        j,
    ) by {
        assert(k.condvar_ok(j));
    }
    assert(k2.ready_ok()) by {
        assert forall|i: int| 0 <= i < k2.ready.len() implies (#[trigger] k2.ready[i])
            < k2.process.tasks.len() && k2.process.tasks[k2.ready[i] as int].task_status
            == TaskStatus::Ready by {
            assert(k.ready.contains(k.ready[i]));
        }
    }
    assert(k2.timers_ok());
}

/// Putting a detached task to sleep keeps the invariant.
pub proof fn lemma_park_on_timer(k: KernelView, t: usize, expire_ms: usize)
    requires
        k.wf(),
        k.detached(t),
        k.process.tasks[t as int].task_status != TaskStatus::UnInit,
        k.process.tasks[t as int].pending == Pending::Nothing,
    ensures
        k.park_on_timer(t, expire_ms).wf(),
{
    let k2 = k.park_on_timer(t, expire_ms);
    assert forall|u: int| 0 <= u < k2.process.tasks.len() implies #[trigger] k2.task_ok(u) by {
        assert(k.task_ok(u));
    }
    assert forall|j: int| 0 <= j < k2.process.mutex_list.len() implies #[trigger] k2.mutex_ok(
        j,
    ) by {
        assert(k.mutex_ok(j));
    }
    assert forall|j: int| 0 <= j < k2.process.semaphore_list.len() implies #[trigger] k2.semaphore_ok(
        j,
    ) by {
        assert(k.semaphore_ok(j));
    }
    assert forall|j: int| 0 <= j < k2.process.condvar_list.len() implies #[trigger] k2.condvar_ok(
        j,
    ) by {
        assert(k.condvar_ok(j));
    }
    assert(k2.ready_ok()) by {
        assert forall|i: int| 0 <= i < k2.ready.len() implies (#[trigger] k2.ready[i])
            < k2.process.tasks.len() && k2.process.tasks[k2.ready[i] as int].task_status
            == TaskStatus::Ready by {
            assert(k.ready.contains(k.ready[i]));
        }
    }
    assert(k2.timers_ok()) by {
        assert forall|i: int| 0 <= i < k2.timers.len() implies k2.waits(
            (#[trigger] k2.timers[i]).tid as int,
            Pending::Sleep(k2.timers[i].expire_ms),
        ) by {
            if i < k.timers.len() {
                assert(k.waits(k.timers[i].tid as int, Pending::Sleep(k.timers[i].expire_ms)));
            }
        }
        assert forall|i: int, j: int|
            0 <= i < k2.timers.len() && 0 <= j < k2.timers.len() && i != j implies (
        #[trigger] k2.timers[i]).tid != (#[trigger] k2.timers[j]).tid by {
            if i < k.timers.len() {
                assert(k.waits(k.timers[i].tid as int, Pending::Sleep(k.timers[i].expire_ms)));
            }
            if j < k.timers.len() {
                assert(k.waits(k.timers[j].tid as int, Pending::Sleep(k.timers[j].expire_ms)));
            }
        }
    }
}

/// Handing a free mutex to a task that is not blocked keeps the invariant.
pub proof fn lemma_grant_mutex(k: KernelView, t: usize, m: usize)
    requires
        k.wf(),
        t < k.process.tasks.len(),
        k.process.tasks[t as int].task_status != TaskStatus::Blocked,
        k.has_mutex(m),
        !k.process.mutex_list[m as int]->0.locked,
        k.wants_at_most_mutex(t, m),
    ensures
        k.grant_mutex(t, m).wf(),
{
    let k2 = k.grant_mutex(t, m);
    assert forall|u: int| 0 <= u < k2.process.tasks.len() implies #[trigger] k2.task_ok(u) by {
        assert(k.task_ok(u));
    }
    assert forall|j: int| 0 <= j < k2.process.mutex_list.len() implies #[trigger] k2.mutex_ok(
        j,
    ) by {
        assert(k.mutex_ok(j));
    }
    assert forall|j: int| 0 <= j < k2.process.semaphore_list.len() implies #[trigger] k2.semaphore_ok(
        j,
    ) by {
        assert(k.semaphore_ok(j));
    }
    assert forall|j: int| 0 <= j < k2.process.condvar_list.len() implies #[trigger] k2.condvar_ok(
        j,
    ) by {
        assert(k.condvar_ok(j));
    }
    assert(k2.ready_ok());
    assert(k2.timers_ok());
}

/// Freeing a mutex keeps the invariant.
pub proof fn lemma_release_mutex(k: KernelView, m: usize)
    requires
        k.wf(),
        k.has_mutex(m),
    ensures
        k.release_mutex(m).wf(),
{
    let k2 = k.release_mutex(m);
    assert forall|u: int| 0 <= u < k2.process.tasks.len() implies #[trigger] k2.task_ok(u) by {
        assert(k.task_ok(u));
    }
    assert forall|j: int| 0 <= j < k2.process.mutex_list.len() implies #[trigger] k2.mutex_ok(
        j,
    ) by {
        assert(k.mutex_ok(j));
    }
    assert forall|j: int| 0 <= j < k2.process.semaphore_list.len() implies #[trigger] k2.semaphore_ok(
        j,
    ) by {
        assert(k.semaphore_ok(j));
    }
    assert forall|j: int| 0 <= j < k2.process.condvar_list.len() implies #[trigger] k2.condvar_ok(
        j,
    ) by {
        assert(k.condvar_ok(j));
    }
    assert(k2.ready_ok());
    assert(k2.timers_ok());
}

/// Waking the first waiter of a mutex keeps the invariant.
pub proof fn lemma_wake_mutex_waiter(k: KernelView, m: usize)
    requires
        k.wf(),
        k.has_mutex(m),
    ensures
        k.wake_mutex_waiter(m).wf(),
{
    let k2 = k.wake_mutex_waiter(m);
    let q = k.process.mutex_list[m as int]->0.wait_queue;
    if q.len() > 0 {
        let w = q[0];
        assert(k.mutex_ok(m as int));
        assert(k.waits(q[0] as int, Pending::Mutex(m)));
        assert(k.task_ok(w as int));
        lemma_drop_first_no_duplicates(q);
        lemma_woken_not_ready(k, w);
        lemma_push_no_duplicates(k.ready, w);
        assert forall|u: int| 0 <= u < k2.process.tasks.len() implies #[trigger] k2.task_ok(
            u,
        ) by {
            assert(k.task_ok(u));
        }
        assert forall|j: int| 0 <= j < k2.process.mutex_list.len() implies #[trigger] k2.mutex_ok(
            j,
        ) by {
            assert(k.mutex_ok(j));
            if j == m {
                let q2 = q.drop_first();
                assert forall|i: int| 0 <= i < q2.len() implies k2.waits(
                    #[trigger] q2[i] as int,
                    Pending::Mutex(m),
                ) by {
                    assert(q2[i] == q[i + 1]);
                    assert(q2.contains(q2[i]));
                    assert(q2[i] != w);
                    assert(k.waits(q[i + 1] as int, Pending::Mutex(m)));
                }
                assert(k2.process.mutex_list[j]->0.wait_queue == q2);
            } else if k.process.mutex_list[j] is Some {
                let qj = k.process.mutex_list[j]->0.wait_queue;
                assert forall|i: int| 0 <= i < qj.len() implies k2.waits(
                    #[trigger] qj[i] as int,
                    Pending::Mutex(j as usize),
                ) by {
                    assert(k.waits(qj[i] as int, Pending::Mutex(j as usize)));
                }
            }
        }
        assert forall|j: int|
            0 <= j < k2.process.semaphore_list.len() implies #[trigger] k2.semaphore_ok(j) by {
            assert(k.semaphore_ok(j));
        }
        assert forall|j: int| 0 <= j < k2.process.condvar_list.len() implies #[trigger] k2.condvar_ok(
            j,
        ) by {
            assert(k.condvar_ok(j));
        }
        assert(k2.ready_ok()) by {
            assert forall|i: int| 0 <= i < k2.ready.len() implies (#[trigger] k2.ready[i])
                < k2.process.tasks.len() && k2.process.tasks[k2.ready[i] as int].task_status
                == TaskStatus::Ready by {
                if i < k.ready.len() {
                    assert(k.ready[i] == k2.ready[i]);
                }
            }
        }
        assert(k2.timers_ok()) by {
            assert forall|i: int| 0 <= i < k2.timers.len() implies k2.waits(
                (#[trigger] k2.timers[i]).tid as int,
                Pending::Sleep(k2.timers[i].expire_ms),
            ) by {
                assert(k.waits(k.timers[i].tid as int, Pending::Sleep(k.timers[i].expire_ms)));
            }
        }
    }
}

/// A blocked task is not in the ready queue.
pub proof fn lemma_woken_not_ready(k: KernelView, w: usize)
    requires
        k.wf(),
        w < k.process.tasks.len(),
        k.process.tasks[w as int].task_status == TaskStatus::Blocked,
    ensures
        !k.ready.contains(w),
{
    if k.ready.contains(w) {
        let i = choose|i: int| 0 <= i < k.ready.len() && k.ready[i] == w;
        assert(k.process.tasks[k.ready[i] as int].task_status == TaskStatus::Ready);
    }
}

/// Taking the first task off the ready queue keeps the invariant and leaves
/// that task detached.
pub proof fn lemma_pop_ready(k: KernelView)
    requires
        k.wf(),
        k.ready.len() > 0,
    ensures
        k.pop_ready().wf(),
        k.pop_ready().detached(k.ready[0]),
        k.process.tasks[k.ready[0] as int].task_status == TaskStatus::Ready,
{
    let k2 = k.pop_ready();
    lemma_drop_first_no_duplicates(k.ready);
    assert(k.ready[0] < k.process.tasks.len());
    assert forall|u: int| 0 <= u < k2.process.tasks.len() implies #[trigger] k2.task_ok(u) by {
        assert(k.task_ok(u));
    }
    assert forall|j: int| 0 <= j < k2.process.mutex_list.len() implies #[trigger] k2.mutex_ok(
        j,
    ) by {
        assert(k.mutex_ok(j));
    }
    assert forall|j: int| 0 <= j < k2.process.semaphore_list.len() implies #[trigger] k2.semaphore_ok(
        j,
    ) by {
        assert(k.semaphore_ok(j));
    }
    assert forall|j: int| 0 <= j < k2.process.condvar_list.len() implies #[trigger] k2.condvar_ok(
        j,
    ) by {
        assert(k.condvar_ok(j));
    }
    assert(k2.ready_ok()) by {
        assert forall|i: int| 0 <= i < k2.ready.len() implies (#[trigger] k2.ready[i])
            < k2.process.tasks.len() && k2.process.tasks[k2.ready[i] as int].task_status
            == TaskStatus::Ready by {
            assert(k2.ready[i] == k.ready[i + 1]);
        }
    }
    assert(k2.timers_ok());
}

/// Dispatching a detached ready task while nothing runs keeps the invariant.
pub proof fn lemma_dispatch(k: KernelView, t: usize, now_us: usize)
    requires
        k.wf(),
        k.detached(t),
        k.process.tasks[t as int].task_status == TaskStatus::Ready,
        k.current is None,
    ensures
        k.dispatch(t, now_us).wf(),
{
    let k2 = k.dispatch(t, now_us);
    assert forall|u: int| 0 <= u < k2.process.tasks.len() implies #[trigger] k2.task_ok(u) by {
        assert(k.task_ok(u));
    }
    assert forall|j: int| 0 <= j < k2.process.mutex_list.len() implies #[trigger] k2.mutex_ok(
        j,
    ) by {
        assert(k.mutex_ok(j));
    }
    assert forall|j: int| 0 <= j < k2.process.semaphore_list.len() implies #[trigger] k2.semaphore_ok(
        j,
    ) by {
        assert(k.semaphore_ok(j));
    }
    assert forall|j: int| 0 <= j < k2.process.condvar_list.len() implies #[trigger] k2.condvar_ok(
        j,
    ) by {
        assert(k.condvar_ok(j));
    }
    assert(k2.ready_ok()) by {
        assert forall|i: int| 0 <= i < k2.ready.len() implies (#[trigger] k2.ready[i])
            < k2.process.tasks.len() && k2.process.tasks[k2.ready[i] as int].task_status
            == TaskStatus::Ready by {
            assert(k.ready.contains(k.ready[i]));
        }
    }
    assert(k2.timers_ok());
}

/// Index of the first free slot of a table, or its length if none is free.
pub open spec fn first_free<T>(slots: Seq<Option<T>>) -> int
    decreases slots.len(),
{
    if slots.len() == 0 {
        0
    } else if slots[0] is None {
        0
    } else {
        1 + first_free(slots.drop_first())
    }
}

/// `first_free` is the least index of a free slot.
pub proof fn lemma_first_free<T>(slots: Seq<Option<T>>)
    ensures
        0 <= first_free(slots) <= slots.len(),
        forall|j: int| 0 <= j < first_free(slots) ==> (#[trigger] slots[j]) is Some,
        first_free(slots) < slots.len() ==> slots[first_free(slots)] is None,
    decreases slots.len(),
{
    if slots.len() > 0 && slots[0] is Some {
        let rest = slots.drop_first();
        lemma_first_free(rest);
        assert forall|j: int| 0 <= j < first_free(slots) implies (#[trigger] slots[j]) is Some by {
            if j > 0 {
                assert(slots[j] == rest[j - 1]);
            }
        }
        assert(first_free(slots) < slots.len() ==> slots[first_free(slots)] == rest[first_free(
            rest,
        )]);
    }
}

/// A least free index is the first free one.
pub proof fn lemma_first_free_is<T>(slots: Seq<Option<T>>, i: int)
    requires
        0 <= i <= slots.len(),
        forall|j: int| 0 <= j < i ==> (#[trigger] slots[j]) is Some,
        i < slots.len() ==> slots[i] is None,
    ensures
        first_free(slots) == i,
{
    lemma_first_free(slots);
    let f = first_free(slots);
    if f < i {
        assert(slots[f] is Some);
    } else if i < f {
        assert(slots[i] is Some);
    }
}

impl KernelView {
    /// A new mutex is put into the first free slot, or appended.
    pub open spec fn create_mutex(self, blocking: bool) -> KernelView {
        let p = self.process;
        let id = first_free(p.mutex_list);
        let mx = MutexView { blocking, locked: false, wait_queue: Seq::empty() };
        if id < p.mutex_list.len() {
            self.with_mutex(id as usize, mx)
        } else {
            KernelView {
                process: ProcessView {
                    mutex_list: p.mutex_list.push(Some(mx)),
                    mutex_alloc: p.mutex_alloc.push(None),
                    ..p
                },
                ..self
            }
        }
    }

    /// A new semaphore with `res_count` instances is put into the first free
    /// slot, or appended.
    pub open spec fn create_semaphore(self, res_count: usize) -> KernelView {
        let p = self.process;
        let id = first_free(p.semaphore_list);
        let sem = SemaphoreView { count: res_count, wait_queue: Seq::empty() };
        if id < p.semaphore_list.len() {
            KernelView {
                process: ProcessView {
                    semaphore_list: p.semaphore_list.update(id, Some(sem)),
                    sem_avail: p.sem_avail.update(id, res_count),
                    sem_total: p.sem_total.update(id, res_count),
                    ..p
                },
                ..self
            }
        } else {
            KernelView {
                process: ProcessView {
                    semaphore_list: p.semaphore_list.push(Some(sem)),
                    sem_avail: p.sem_avail.push(res_count),
                    sem_total: p.sem_total.push(res_count),
                    sem_alloc: Seq::new(p.sem_alloc.len(), |t: int| p.sem_alloc[t].push(0usize)),
                    ..p
                },
                ..self
            }
        }
    }

    /// A new condition variable is put into the first free slot, or appended.
    pub open spec fn create_condvar(self) -> KernelView {
        let p = self.process;
        let id = first_free(p.condvar_list);
        let cv = CondvarView { wait_queue: Seq::empty() };
        if id < p.condvar_list.len() {
            self.with_condvar(id as usize, cv)
        } else {
            KernelView {
                process: ProcessView { condvar_list: p.condvar_list.push(Some(cv)), ..p },
                ..self
            }
        }
    }

    /// Deadlock detection is switched on or off.
    pub open spec fn with_detection(self, enabled: bool) -> KernelView {
        KernelView {
            process: ProcessView { deadlock_detection_enabled: enabled, ..self.process },
            ..self
        }
    }

    /// The saved context of task `t` is `cx`.
    pub open spec fn with_task_cx(self, t: usize, cx: TaskContext) -> KernelView {
        let tcb = self.process.tasks[t as int];
        KernelView {
            process: ProcessView {
                tasks: self.process.tasks.update(t as int, TaskControlBlock { task_cx: cx, ..tcb }),
                ..self.process
            },
            ..self
        }
    }

    /// Task `t` has made the syscall `id` once more.
    pub open spec fn count_syscall(self, t: usize, id: usize) -> KernelView {
        let tcb = self.process.tasks[t as int];
        KernelView {
            process: ProcessView {
                tasks: self.process.tasks.update(
                    t as int,
                    TaskControlBlock {
                        syscall_times: vstd::array::spec_array_update(
                            tcb.syscall_times,
                            id as int,
                            (tcb.syscall_times[id as int] + 1) as u32,
                        ),
                        ..tcb
                    },
                ),
                ..self.process
            },
            ..self
        }
    }
}

/// Handing an instance of a semaphore to a task that is not blocked keeps the
/// invariant, and the task's count of instances cannot overflow.
pub proof fn lemma_grant_semaphore(k: KernelView, t: usize, s: usize)
    requires
        k.wf(),
        t < k.process.tasks.len(),
        k.process.tasks[t as int].task_status != TaskStatus::Blocked,
        k.has_semaphore(s),
        k.process.semaphore_list[s as int]->0.count > 0,
        k.wants_at_most_semaphore(t, s),
    ensures
        k.grant_semaphore(t, s).wf(),
        k.process.sem_avail[s as int] > 0,
        k.process.sem_alloc[t as int][s as int] < usize::MAX,
{
    let k2 = k.grant_semaphore(t, s);
    let a = k.process.sem_alloc;
    let b = k2.process.sem_alloc;
    let n = k.process.tasks.len();
    assert(k.semaphore_ok(s as int));
    assert(a[t as int].len() == k.process.semaphore_list.len());
    lemma_held_member(a, t as int, s as int, n);
    assert forall|u: int| 0 <= u < k2.process.tasks.len() implies #[trigger] k2.task_ok(u) by {
        assert(k.task_ok(u));
    }
    assert forall|j: int| 0 <= j < k2.process.mutex_list.len() implies #[trigger] k2.mutex_ok(
        j,
    ) by {
        assert(k.mutex_ok(j));
    }
    assert forall|j: int| 0 <= j < k2.process.semaphore_list.len() implies #[trigger] k2.semaphore_ok(
        j,
    ) by {
        assert(k.semaphore_ok(j));
        if j == s {
            lemma_held_change(a, b, t as int, j, n);
        } else {
            lemma_held_same(a, b, j, n);
            if k.process.semaphore_list[j] is None {
                assert forall|u: int| 0 <= u < n implies #[trigger] held_by(b, u, j) == 0 by {
                    assert(held_by(a, u, j) == 0);
                }
            }
        }
    }
    assert forall|j: int| 0 <= j < k2.process.condvar_list.len() implies #[trigger] k2.condvar_ok(
        j,
    ) by {
        assert(k.condvar_ok(j));
    }
    assert(k2.ready_ok());
    assert(k2.timers_ok());
    assert(k2.dims_ok());
}

/// Putting an instance into a semaphore keeps the invariant, and its count
/// cannot overflow.
pub proof fn lemma_return_semaphore(k: KernelView, t: usize, s: usize)
    requires
        k.wf(),
        t < k.process.tasks.len(),
        k.has_semaphore(s),
        k.process.sem_alloc[t as int][s as int] > 0 || k.process.sem_total[s as int] < usize::MAX,
    ensures
        k.return_semaphore(t, s).wf(),
        k.process.sem_avail[s as int] < usize::MAX,
        k.process.semaphore_list[s as int]->0.count == k.process.sem_avail[s as int],
{
    let k2 = k.return_semaphore(t, s);
    let a = k.process.sem_alloc;
    let b = k2.process.sem_alloc;
    let n = k.process.tasks.len();
    assert(k.semaphore_ok(s as int));
    assert(a[t as int].len() == k.process.semaphore_list.len());
    lemma_held_member(a, t as int, s as int, n);
    assert forall|u: int| 0 <= u < k2.process.tasks.len() implies #[trigger] k2.task_ok(u) by {
        assert(k.task_ok(u));
    }
    assert forall|j: int| 0 <= j < k2.process.mutex_list.len() implies #[trigger] k2.mutex_ok(
        j,
    ) by {
        assert(k.mutex_ok(j));
    }
    assert forall|j: int| 0 <= j < k2.process.semaphore_list.len() implies #[trigger] k2.semaphore_ok(
        j,
    ) by {
        assert(k.semaphore_ok(j));
        if j == s {
            lemma_held_change(a, b, t as int, j, n);
        } else {
            lemma_held_same(a, b, j, n);
            if k.process.semaphore_list[j] is None {
                assert forall|u: int| 0 <= u < n implies #[trigger] held_by(b, u, j) == 0 by {
                    assert(held_by(a, u, j) == 0);
                }
            }
        }
    }
    assert forall|j: int| 0 <= j < k2.process.condvar_list.len() implies #[trigger] k2.condvar_ok(
        j,
    ) by {
        assert(k.condvar_ok(j));
    }
    assert(k2.ready_ok());
    assert(k2.timers_ok());
    assert(k2.dims_ok());
}

/// Waking the first waiter of a semaphore keeps the invariant.
pub proof fn lemma_wake_semaphore_waiter(k: KernelView, s: usize)
    requires
        k.wf(),
        k.has_semaphore(s),
    ensures
        k.wake_semaphore_waiter(s).wf(),
{
    let k2 = k.wake_semaphore_waiter(s);
    let q = k.process.semaphore_list[s as int]->0.wait_queue;
    if q.len() > 0 {
        let w = q[0];
        assert(k.semaphore_ok(s as int));
        assert(k.waits(q[0] as int, Pending::Semaphore(s)));
        assert(k.task_ok(w as int));
        lemma_drop_first_no_duplicates(q);
        lemma_woken_not_ready(k, w);
        lemma_push_no_duplicates(k.ready, w);
        assert forall|u: int| 0 <= u < k2.process.tasks.len() implies #[trigger] k2.task_ok(
            u,
        ) by {
            assert(k.task_ok(u));
        }
        assert forall|j: int| 0 <= j < k2.process.mutex_list.len() implies #[trigger] k2.mutex_ok(
            j,
        ) by {
            assert(k.mutex_ok(j));
        }
        assert forall|j: int|
            0 <= j < k2.process.semaphore_list.len() implies #[trigger] k2.semaphore_ok(j) by {
            assert(k.semaphore_ok(j));
            if j == s {
                let q2 = q.drop_first();
                assert forall|i: int| 0 <= i < q2.len() implies k2.waits(
                    #[trigger] q2[i] as int,
                    Pending::Semaphore(s),
                ) by {
                    assert(q2[i] == q[i + 1]);
                    assert(q2.contains(q2[i]));
                    assert(q2[i] != w);
                    assert(k.waits(q[i + 1] as int, Pending::Semaphore(s)));
                }
                assert(k2.process.semaphore_list[j]->0.wait_queue == q2);
            }
        }
        assert forall|j: int| 0 <= j < k2.process.condvar_list.len() implies #[trigger] k2.condvar_ok(
            j,
        ) by {
            assert(k.condvar_ok(j));
        }
        assert(k2.ready_ok()) by {
            assert forall|i: int| 0 <= i < k2.ready.len() implies (#[trigger] k2.ready[i])
                < k2.process.tasks.len() && k2.process.tasks[k2.ready[i] as int].task_status
                == TaskStatus::Ready by {
                if i < k.ready.len() {
                    assert(k.ready[i] == k2.ready[i]);
                }
            }
        }
        assert(k2.timers_ok()) by {
            assert forall|i: int| 0 <= i < k2.timers.len() implies k2.waits(
                (#[trigger] k2.timers[i]).tid as int,
                Pending::Sleep(k2.timers[i].expire_ms),
            ) by {
                assert(k.waits(k.timers[i].tid as int, Pending::Sleep(k.timers[i].expire_ms)));
            }
        }
    }
}

/// Waking the first waiter of a condition variable keeps the invariant.
pub proof fn lemma_wake_condvar_waiter(k: KernelView, c: usize)
    requires
        k.wf(),
        k.has_condvar(c),
    ensures
        k.wake_condvar_waiter(c).wf(),
{
    let k2 = k.wake_condvar_waiter(c);
    let q = k.process.condvar_list[c as int]->0.wait_queue;
    if q.len() > 0 {
        let w = q[0];
        assert(k.condvar_ok(c as int));
        assert(k.waits_on_condvar(q[0] as int, c as int));
        assert(k.task_ok(w as int));
        lemma_drop_first_no_duplicates(q);
        lemma_woken_not_ready(k, w);
        lemma_push_no_duplicates(k.ready, w);
        assert forall|u: int| 0 <= u < k2.process.tasks.len() implies #[trigger] k2.task_ok(
            u,
        ) by {
            assert(k.task_ok(u));
        }
        assert forall|j: int| 0 <= j < k2.process.mutex_list.len() implies #[trigger] k2.mutex_ok(
            j,
        ) by {
            assert(k.mutex_ok(j));
        }
        assert forall|j: int|
            0 <= j < k2.process.semaphore_list.len() implies #[trigger] k2.semaphore_ok(j) by {
            assert(k.semaphore_ok(j));
        }
        assert forall|j: int| 0 <= j < k2.process.condvar_list.len() implies #[trigger] k2.condvar_ok(
            j,
        ) by {
            assert(k.condvar_ok(j));
            if j == c {
                let q2 = q.drop_first();
                assert forall|i: int| 0 <= i < q2.len() implies k2.waits_on_condvar(
                    #[trigger] q2[i] as int,
                    c as int,
                ) by {
                    assert(q2[i] == q[i + 1]);
                    assert(q2.contains(q2[i]));
                    assert(q2[i] != w);
                    assert(k.waits_on_condvar(q[i + 1] as int, c as int));
                }
                assert(k2.process.condvar_list[j]->0.wait_queue == q2);
            }
        }
        assert(k2.ready_ok()) by {
            assert forall|i: int| 0 <= i < k2.ready.len() implies (#[trigger] k2.ready[i])
                < k2.process.tasks.len() && k2.process.tasks[k2.ready[i] as int].task_status
                == TaskStatus::Ready by {
                if i < k.ready.len() {
                    assert(k.ready[i] == k2.ready[i]);
                }
            }
        }
        assert(k2.timers_ok()) by {
            assert forall|i: int| 0 <= i < k2.timers.len() implies k2.waits(
                (#[trigger] k2.timers[i]).tid as int,
                Pending::Sleep(k2.timers[i].expire_ms),
            ) by {
                assert(k.waits(k.timers[i].tid as int, Pending::Sleep(k.timers[i].expire_ms)));
            }
        }
    }
}

/// Ending the sleep of a task keeps the invariant.
pub proof fn lemma_wake_timer(k: KernelView, i: int)
    requires
        k.wf(),
        0 <= i < k.timers.len(),
    ensures
        k.wake_timer(i).wf(),
{
    let k2 = k.wake_timer(i);
    let w = k.timers[i].tid;
    assert(k.waits(k.timers[i].tid as int, Pending::Sleep(k.timers[i].expire_ms)));
    assert(k.task_ok(w as int));
    lemma_woken_not_ready(k, w);
    lemma_push_no_duplicates(k.ready, w);
    assert forall|u: int| 0 <= u < k2.process.tasks.len() implies #[trigger] k2.task_ok(u) by {
        assert(k.task_ok(u));
    }
    assert forall|j: int| 0 <= j < k2.process.mutex_list.len() implies #[trigger] k2.mutex_ok(
        j,
    ) by {
        assert(k.mutex_ok(j));
    }
    assert forall|j: int| 0 <= j < k2.process.semaphore_list.len() implies #[trigger] k2.semaphore_ok(
        j,
    ) by {
        assert(k.semaphore_ok(j));
    }
    assert forall|j: int| 0 <= j < k2.process.condvar_list.len() implies #[trigger] k2.condvar_ok(
        j,
    ) by {
        assert(k.condvar_ok(j));
    }
    assert(k2.ready_ok()) by {
        assert forall|x: int| 0 <= x < k2.ready.len() implies (#[trigger] k2.ready[x])
            < k2.process.tasks.len() && k2.process.tasks[k2.ready[x] as int].task_status
            == TaskStatus::Ready by {
            if x < k.ready.len() {
                assert(k.ready[x] == k2.ready[x]);
            }
        }
    }
    assert(k2.timers_ok()) by {
        assert forall|x: int| 0 <= x < k2.timers.len() implies k2.waits(
            (#[trigger] k2.timers[x]).tid as int,
            Pending::Sleep(k2.timers[x].expire_ms),
        ) by {
            let y = if x < i { x } else { x + 1 };
            assert(k2.timers[x] == k.timers[y]);
            assert(k.waits(k.timers[y].tid as int, Pending::Sleep(k.timers[y].expire_ms)));
            assert(k.timers[y].tid != k.timers[i].tid);
        }
        assert forall|x: int, z: int|
            0 <= x < k2.timers.len() && 0 <= z < k2.timers.len() && x != z implies (
        #[trigger] k2.timers[x]).tid != (#[trigger] k2.timers[z]).tid by {
            let y = if x < i { x } else { x + 1 };
            let y2 = if z < i { z } else { z + 1 };
            assert(k2.timers[x] == k.timers[y]);
            assert(k2.timers[z] == k.timers[y2]);
        }
    }
}

/// The exit of the running task, which has nothing left to obtain, keeps the invariant.
pub proof fn lemma_exit_current(k: KernelView, code: i32)
    requires
        k.wf(),
        k.calling(),
    ensures
        k.exit_current(code).wf(),
{
    let k2 = k.exit_current(code);
    let t = k.current->0;
    assert(k.task_ok(t as int));
    assert forall|u: int| 0 <= u < k2.process.tasks.len() implies #[trigger] k2.task_ok(u) by {
        assert(k.task_ok(u));
    }
    assert forall|j: int| 0 <= j < k2.process.mutex_list.len() implies #[trigger] k2.mutex_ok(
        j,
    ) by {
        assert(k.mutex_ok(j));
    }
    assert forall|j: int| 0 <= j < k2.process.semaphore_list.len() implies #[trigger] k2.semaphore_ok(
        j,
    ) by {
        assert(k.semaphore_ok(j));
    }
    assert forall|j: int| 0 <= j < k2.process.condvar_list.len() implies #[trigger] k2.condvar_ok(
        j,
    ) by {
        assert(k.condvar_ok(j));
    }
    assert(k2.ready_ok()) by {
        assert forall|i: int| 0 <= i < k2.ready.len() implies (#[trigger] k2.ready[i])
            < k2.process.tasks.len() && k2.process.tasks[k2.ready[i] as int].task_status
            == TaskStatus::Ready by {
            assert(k.ready[i] == k2.ready[i]);
        }
    }
    assert(k2.timers_ok());
}

/// Adding a task keeps the invariant.
pub proof fn lemma_spawn(k: KernelView, cx: TaskContext)
    requires
        k.wf(),
        k.process.tasks.len() < usize::MAX,
    ensures
        k.spawn(cx).wf(),
{
    let k2 = k.spawn(cx);
    let a = k.process.sem_alloc;
    let b = k2.process.sem_alloc;
    let n = k.process.tasks.len();
    assert forall|u: int| 0 <= u < k2.process.tasks.len() implies #[trigger] k2.task_ok(u) by {
        if u < n {
            assert(k.task_ok(u));
        }
    }
    assert forall|j: int| 0 <= j < k2.process.mutex_list.len() implies #[trigger] k2.mutex_ok(
        j,
    ) by {
        assert(k.mutex_ok(j));
    }
    assert forall|j: int| 0 <= j < k2.process.semaphore_list.len() implies #[trigger] k2.semaphore_ok(
        j,
    ) by {
        assert(k.semaphore_ok(j));
        lemma_held_same(a, b, j, n);
        assert(held_by(b, n as int, j) == 0);
        if k.process.semaphore_list[j] is None {
            assert forall|u: int| 0 <= u < n + 1 implies #[trigger] held_by(b, u, j) == 0 by {
                if u < n {
                    assert(held_by(a, u, j) == 0);
                }
            }
        }
    }
    assert forall|j: int| 0 <= j < k2.process.condvar_list.len() implies #[trigger] k2.condvar_ok(
        j,
    ) by {
        assert(k.condvar_ok(j));
    }
    assert(k2.ready_ok());
    assert(k2.timers_ok());
    assert(k2.dims_ok());
}

/// Recording what a running or ready task asks for keeps the invariant, as
/// long as the task does not already wait for another mutex.
pub proof fn lemma_with_mutex_request(k: KernelView, t: usize, req: Option<usize>)
    requires
        k.wf(),
        t < k.process.tasks.len(),
        !(k.process.tasks[t as int].pending is Mutex),
    ensures
        k.with_mutex_request(t, req).wf(),
{
    let k2 = k.with_mutex_request(t, req);
    assert forall|u: int| 0 <= u < k2.process.tasks.len() implies #[trigger] k2.task_ok(u) by {
        assert(k.task_ok(u));
    }
    assert forall|j: int| 0 <= j < k2.process.mutex_list.len() implies #[trigger] k2.mutex_ok(
        j,
    ) by {
        assert(k.mutex_ok(j));
    }
    assert forall|j: int| 0 <= j < k2.process.semaphore_list.len() implies #[trigger] k2.semaphore_ok(
        j,
    ) by {
        assert(k.semaphore_ok(j));
    }
    assert forall|j: int| 0 <= j < k2.process.condvar_list.len() implies #[trigger] k2.condvar_ok(
        j,
    ) by {
        assert(k.condvar_ok(j));
    }
    assert(k2.ready_ok());
    assert(k2.timers_ok());
}

/// A change of the saved context or of the syscall counts of a task, or of
/// the detection switch, keeps the invariant.
pub proof fn lemma_plain_updates(k: KernelView, t: usize, cx: TaskContext, id: usize, enabled: bool)
    requires
        k.wf(),
    ensures
        t < k.process.tasks.len() ==> k.with_task_cx(t, cx).wf(),
        t < k.process.tasks.len() ==> k.count_syscall(t, id).wf(),
        k.with_detection(enabled).wf(),
        (KernelView { idle_task_cx: cx, ..k }).wf(),
{
    if t < k.process.tasks.len() {
        let k2 = k.with_task_cx(t, cx);
        assert forall|u: int| 0 <= u < k2.process.tasks.len() implies #[trigger] k2.task_ok(
            u,
        ) by {
            assert(k.task_ok(u));
        }
        assert forall|j: int| 0 <= j < k2.process.mutex_list.len() implies #[trigger] k2.mutex_ok(
            j,
        ) by {
            assert(k.mutex_ok(j));
        }
        assert forall|j: int|
            0 <= j < k2.process.semaphore_list.len() implies #[trigger] k2.semaphore_ok(j) by {
            assert(k.semaphore_ok(j));
        }
        assert forall|j: int| 0 <= j < k2.process.condvar_list.len() implies #[trigger] k2.condvar_ok(
            j,
        ) by {
            assert(k.condvar_ok(j));
        }
        assert(k2.ready_ok());
        assert(k2.timers_ok());
        let k3 = k.count_syscall(t, id);
        assert forall|u: int| 0 <= u < k3.process.tasks.len() implies #[trigger] k3.task_ok(
            u,
        ) by {
            assert(k.task_ok(u));
        }
        assert forall|j: int| 0 <= j < k3.process.mutex_list.len() implies #[trigger] k3.mutex_ok(
            j,
        ) by {
            assert(k.mutex_ok(j));
        }
        assert forall|j: int|
            0 <= j < k3.process.semaphore_list.len() implies #[trigger] k3.semaphore_ok(j) by {
            assert(k.semaphore_ok(j));
        }
        assert forall|j: int| 0 <= j < k3.process.condvar_list.len() implies #[trigger] k3.condvar_ok(
            j,
        ) by {
            assert(k.condvar_ok(j));
        }
        assert(k3.ready_ok());
        assert(k3.timers_ok());
    }
    let k4 = k.with_detection(enabled);
    assert forall|u: int| 0 <= u < k4.process.tasks.len() implies #[trigger] k4.task_ok(u) by {
        assert(k.task_ok(u));
    }
    assert forall|j: int| 0 <= j < k4.process.mutex_list.len() implies #[trigger] k4.mutex_ok(
        j,
    ) by {
        assert(k.mutex_ok(j));
    }
    assert forall|j: int| 0 <= j < k4.process.semaphore_list.len() implies #[trigger] k4.semaphore_ok(
        j,
    ) by {
        assert(k.semaphore_ok(j));
    }
    assert forall|j: int| 0 <= j < k4.process.condvar_list.len() implies #[trigger] k4.condvar_ok(
        j,
    ) by {
        assert(k.condvar_ok(j));
    }
    assert(k4.ready_ok());
    assert(k4.timers_ok());
    let k5 = KernelView { idle_task_cx: cx, ..k };
    assert forall|u: int| 0 <= u < k5.process.tasks.len() implies #[trigger] k5.task_ok(u) by {
        assert(k.task_ok(u));
    }
    assert forall|j: int| 0 <= j < k5.process.mutex_list.len() implies #[trigger] k5.mutex_ok(
        j,
    ) by {
        assert(k.mutex_ok(j));
    }
    assert forall|j: int| 0 <= j < k5.process.semaphore_list.len() implies #[trigger] k5.semaphore_ok(
        j,
    ) by {
        assert(k.semaphore_ok(j));
    }
    assert forall|j: int| 0 <= j < k5.process.condvar_list.len() implies #[trigger] k5.condvar_ok(
        j,
    ) by {
        assert(k.condvar_ok(j));
    }
    assert(k5.ready_ok());
    assert(k5.timers_ok());
}

/// Creating a mutex keeps the invariant.
pub proof fn lemma_create_mutex(k: KernelView, blocking: bool)
    requires
        k.wf(),
        first_free(k.process.mutex_list) < usize::MAX,
    ensures
        k.create_mutex(blocking).wf(),
{
    let k2 = k.create_mutex(blocking);
    lemma_first_free(k.process.mutex_list);
    let id = first_free(k.process.mutex_list);
    assert forall|u: int| 0 <= u < k2.process.tasks.len() implies #[trigger] k2.task_ok(u) by {
        assert(k.task_ok(u));
    }
    assert forall|j: int| 0 <= j < k2.process.mutex_list.len() implies #[trigger] k2.mutex_ok(
        j,
    ) by {
        if j < k.process.mutex_list.len() {
            assert(k.mutex_ok(j));
        }
    }
    assert forall|j: int| 0 <= j < k2.process.semaphore_list.len() implies #[trigger] k2.semaphore_ok(
        j,
    ) by {
        assert(k.semaphore_ok(j));
    }
    assert forall|j: int| 0 <= j < k2.process.condvar_list.len() implies #[trigger] k2.condvar_ok(
        j,
    ) by {
        assert(k.condvar_ok(j));
    }
    assert(k2.ready_ok());
    assert(k2.timers_ok());
}

/// Creating a condition variable keeps the invariant.
pub proof fn lemma_create_condvar(k: KernelView)
    requires
        k.wf(),
        first_free(k.process.condvar_list) < usize::MAX,
    ensures
        k.create_condvar().wf(),
{
    let k2 = k.create_condvar();
    lemma_first_free(k.process.condvar_list);
    assert forall|u: int| 0 <= u < k2.process.tasks.len() implies #[trigger] k2.task_ok(u) by {
        assert(k.task_ok(u));
    }
    assert forall|j: int| 0 <= j < k2.process.mutex_list.len() implies #[trigger] k2.mutex_ok(
        j,
    ) by {
        assert(k.mutex_ok(j));
    }
    assert forall|j: int| 0 <= j < k2.process.semaphore_list.len() implies #[trigger] k2.semaphore_ok(
        j,
    ) by {
        assert(k.semaphore_ok(j));
    }
    assert forall|j: int| 0 <= j < k2.process.condvar_list.len() implies #[trigger] k2.condvar_ok(
        j,
    ) by {
        if j < k.process.condvar_list.len() {
            assert(k.condvar_ok(j));
        }
    }
    assert(k2.ready_ok());
    assert(k2.timers_ok());
}

/// Creating a semaphore keeps the invariant.
pub proof fn lemma_create_semaphore(k: KernelView, res_count: usize)
    requires
        k.wf(),
        first_free(k.process.semaphore_list) < usize::MAX,
    ensures
        k.create_semaphore(res_count).wf(),
{
    let k2 = k.create_semaphore(res_count);
    lemma_first_free(k.process.semaphore_list);
    let id = first_free(k.process.semaphore_list);
    let a = k.process.sem_alloc;
    let b = k2.process.sem_alloc;
    let n = k.process.tasks.len();
    let m = k.process.semaphore_list.len();
    assert forall|u: int| 0 <= u < k2.process.tasks.len() implies #[trigger] k2.task_ok(u) by {
        assert(k.task_ok(u));
    }
    assert forall|j: int| 0 <= j < k2.process.mutex_list.len() implies #[trigger] k2.mutex_ok(
        j,
    ) by {
        assert(k.mutex_ok(j));
    }
    assert forall|j: int| 0 <= j < k2.process.semaphore_list.len() implies #[trigger] k2.semaphore_ok(
        j,
    ) by {
        if j < m {
            assert(k.semaphore_ok(j));
            assert forall|u: int| 0 <= u < n implies held_by(a, u, j) == held_by(b, u, j) by {
                assert(a[u].len() == m);
            }
            lemma_held_same(a, b, j, n);
            if j == id {
                lemma_held_zero(a, j, n);
            } else if k.process.semaphore_list[j] is None {
                assert forall|u: int| 0 <= u < n implies #[trigger] held_by(b, u, j) == 0 by {
                    assert(held_by(a, u, j) == 0);
                }
            }
        } else {
            assert forall|u: int| 0 <= u < n implies held_by(b, u, j) == 0 by {
                assert(a[u].len() == m);
            }
            lemma_held_zero(b, j, n);
        }
    }
    assert forall|j: int| 0 <= j < k2.process.condvar_list.len() implies #[trigger] k2.condvar_ok(
        j,
    ) by {
        assert(k.condvar_ok(j));
    }
    assert(k2.ready_ok());
    assert(k2.timers_ok());
    assert(k2.dims_ok());
}

impl Kernel {
    /// Sets the status and the pending request of task `t`.
    pub(crate) fn set_task_state(&mut self, t: usize, status: TaskStatus, pend: Pending)
        requires
            t < old(self).process.tasks.len(),
        ensures
            final(self)@ == old(self)@.with_task_state(t, status, pend),
            final(self).process.memory_set == old(self).process.memory_set,
    {
        self.process.tasks[t].task_status = status;
        self.process.tasks[t].pending = pend;
        proof {
            assert(self@.process.tasks =~= old(self)@.with_task_state(
                t,
                status,
                pend,
            ).process.tasks);
        }
    }

    /// Takes task `t` off the processor if it runs.
    pub(crate) fn clear_current(&mut self, t: usize)
        ensures
            final(self)@ == old(self)@.without_current(t),
            final(self).process.memory_set == old(self).process.memory_set,
    {
        match self.processor.current {
            Some(c) => {
                if c == t {
                    self.processor.current = None;
                }
            },
            None => {},
        }
    }

    /// Adds task `t` at the back of the ready queue.
    pub(crate) fn push_ready(&mut self, t: usize)
        ensures
            final(self)@ == old(self)@.with_ready_pushed(t),
            final(self).process.memory_set == old(self).process.memory_set,
    {
        self.task_manager.add(t);
    }

    /// Adds task `t` at the back of the queue of mutex `m`.
    pub(crate) fn mutex_push_waiter(&mut self, m: usize, t: usize)
        requires
            old(self)@.has_mutex(m),
        ensures
            final(self)@ == old(self)@.with_mutex(
                m,
                MutexView {
                    wait_queue: old(self)@.process.mutex_list[m as int]->0.wait_queue.push(t),
                    ..old(self)@.process.mutex_list[m as int]->0
                },
            ),
            final(self).process.memory_set == old(self).process.memory_set,
    {
        match &mut self.process.mutex_list[m] {
            Some(mx) => {
                mx.wait_queue.push_back(t);
            },
            None => {},
        }
        proof {
            assert(self@.process.mutex_list =~= old(self)@.with_mutex(
                m,
                MutexView {
                    wait_queue: old(self)@.process.mutex_list[m as int]->0.wait_queue.push(t),
                    ..old(self)@.process.mutex_list[m as int]->0
                },
            ).process.mutex_list);
        }
    }

    /// Takes the first task off the queue of mutex `m`, if there is one.
    pub(crate) fn mutex_pop_waiter(&mut self, m: usize) -> (w: Option<usize>)
        requires
            old(self)@.has_mutex(m),
        ensures
            old(self)@.process.mutex_list[m as int]->0.wait_queue.len() == 0 ==> w is None
                && final(self)@ == old(self)@,
            old(self)@.process.mutex_list[m as int]->0.wait_queue.len() > 0 ==> w == Some(
                old(self)@.process.mutex_list[m as int]->0.wait_queue[0],
            ) && final(self)@ == old(self)@.with_mutex(
                m,
                MutexView {
                    wait_queue: old(self)@.process.mutex_list[m as int]->0.wait_queue.drop_first(),
                    ..old(self)@.process.mutex_list[m as int]->0
                },
            ),
            final(self).process.memory_set == old(self).process.memory_set,
    {
        let w = match &mut self.process.mutex_list[m] {
            Some(mx) => mx.wait_queue.pop_front(),
            None => None,
        };
        proof {
            let q = old(self)@.process.mutex_list[m as int]->0.wait_queue;
            if q.len() > 0 {
                assert(q.subrange(1, q.len() as int) =~= q.drop_first());
                assert(self@.process.mutex_list =~= old(self)@.with_mutex(
                    m,
                    MutexView {
                        wait_queue: q.drop_first(),
                        ..old(self)@.process.mutex_list[m as int]->0
                    },
                ).process.mutex_list);
            } else {
                assert(self@.process.mutex_list =~= old(self)@.process.mutex_list);
            }
        }
        w
    }

    /// Marks mutex `m` as held or free.
    pub(crate) fn mutex_set_locked(&mut self, m: usize, locked: bool)
        requires
            old(self)@.has_mutex(m),
        ensures
            final(self)@ == old(self)@.with_mutex(
                m,
                MutexView { locked, ..old(self)@.process.mutex_list[m as int]->0 },
            ),
            final(self).process.memory_set == old(self).process.memory_set,
    {
        match &mut self.process.mutex_list[m] {
            Some(mx) => {
                mx.locked = locked;
            },
            None => {},
        }
        proof {
            assert(self@.process.mutex_list =~= old(self)@.with_mutex(
                m,
                MutexView { locked, ..old(self)@.process.mutex_list[m as int]->0 },
            ).process.mutex_list);
        }
    }

    /// Adds task `t` at the back of the queue of semaphore `s`.
    pub(crate) fn semaphore_push_waiter(&mut self, s: usize, t: usize)
        requires
            old(self)@.has_semaphore(s),
        ensures
            final(self)@ == old(self)@.with_semaphore(
                s,
                SemaphoreView {
                    wait_queue: old(self)@.process.semaphore_list[s as int]->0.wait_queue.push(t),
                    ..old(self)@.process.semaphore_list[s as int]->0
                },
            ),
            final(self).process.memory_set == old(self).process.memory_set,
    {
        match &mut self.process.semaphore_list[s] {
            Some(sem) => {
                sem.wait_queue.push_back(t);
            },
            None => {},
        }
        proof {
            assert(self@.process.semaphore_list =~= old(self)@.with_semaphore(
                s,
                SemaphoreView {
                    wait_queue: old(self)@.process.semaphore_list[s as int]->0.wait_queue.push(t),
                    ..old(self)@.process.semaphore_list[s as int]->0
                },
            ).process.semaphore_list);
        }
    }

    /// Takes the first task off the queue of semaphore `s`, if there is one.
    pub(crate) fn semaphore_pop_waiter(&mut self, s: usize) -> (w: Option<usize>)
        requires
            old(self)@.has_semaphore(s),
        ensures
            old(self)@.process.semaphore_list[s as int]->0.wait_queue.len() == 0 ==> w is None
                && final(self)@ == old(self)@,
            old(self)@.process.semaphore_list[s as int]->0.wait_queue.len() > 0 ==> w == Some(
                old(self)@.process.semaphore_list[s as int]->0.wait_queue[0],
            ) && final(self)@ == old(self)@.with_semaphore(
                s,
                SemaphoreView {
                    wait_queue: old(
                        self,
                    )@.process.semaphore_list[s as int]->0.wait_queue.drop_first(),
                    ..old(self)@.process.semaphore_list[s as int]->0
                },
            ),
            final(self).process.memory_set == old(self).process.memory_set,
    {
        let w = match &mut self.process.semaphore_list[s] {
            Some(sem) => sem.wait_queue.pop_front(),
            None => None,
        };
        proof {
            let q = old(self)@.process.semaphore_list[s as int]->0.wait_queue;
            if q.len() > 0 {
                assert(q.subrange(1, q.len() as int) =~= q.drop_first());
                assert(self@.process.semaphore_list =~= old(self)@.with_semaphore(
                    s,
                    SemaphoreView {
                        wait_queue: q.drop_first(),
                        ..old(self)@.process.semaphore_list[s as int]->0
                    },
                ).process.semaphore_list);
            } else {
                assert(self@.process.semaphore_list =~= old(self)@.process.semaphore_list);
            }
        }
        w
    }

    /// Sets the count of semaphore `s`.
    pub(crate) fn semaphore_set_count(&mut self, s: usize, count: usize)
        requires
            old(self)@.has_semaphore(s),
        ensures
            final(self)@ == old(self)@.with_semaphore(
                s,
                SemaphoreView { count, ..old(self)@.process.semaphore_list[s as int]->0 },
            ),
            final(self).process.memory_set == old(self).process.memory_set,
    {
        match &mut self.process.semaphore_list[s] {
            Some(sem) => {
                sem.count = count;
            },
            None => {},
        }
        proof {
            assert(self@.process.semaphore_list =~= old(self)@.with_semaphore(
                s,
                SemaphoreView { count, ..old(self)@.process.semaphore_list[s as int]->0 },
            ).process.semaphore_list);
        }
    }

    /// Adds task `t` at the back of the queue of condition variable `c`.
    pub(crate) fn condvar_push_waiter(&mut self, c: usize, t: usize)
        requires
            old(self)@.has_condvar(c),
        ensures
            final(self)@ == old(self)@.with_condvar(
                c,
                CondvarView {
                    wait_queue: old(self)@.process.condvar_list[c as int]->0.wait_queue.push(t),
                },
            ),
            final(self).process.memory_set == old(self).process.memory_set,
    {
        match &mut self.process.condvar_list[c] {
            Some(cv) => {
                cv.wait_queue.push_back(t);
            },
            None => {},
        }
        proof {
            assert(self@.process.condvar_list =~= old(self)@.with_condvar(
                c,
                CondvarView {
                    wait_queue: old(self)@.process.condvar_list[c as int]->0.wait_queue.push(t),
                },
            ).process.condvar_list);
        }
    }

    /// Takes the first task off the queue of condition variable `c`, if there is one.
    pub(crate) fn condvar_pop_waiter(&mut self, c: usize) -> (w: Option<usize>)
        requires
            old(self)@.has_condvar(c),
        ensures
            old(self)@.process.condvar_list[c as int]->0.wait_queue.len() == 0 ==> w is None
                && final(self)@ == old(self)@,
            old(self)@.process.condvar_list[c as int]->0.wait_queue.len() > 0 ==> w == Some(
                old(self)@.process.condvar_list[c as int]->0.wait_queue[0],
            ) && final(self)@ == old(self)@.with_condvar(
                c,
                CondvarView {
                    wait_queue: old(self)@.process.condvar_list[c as int]->0.wait_queue.drop_first(),
                },
            ),
            final(self).process.memory_set == old(self).process.memory_set,
    {
        let w = match &mut self.process.condvar_list[c] {
            Some(cv) => cv.wait_queue.pop_front(),
            None => None,
        };
        proof {
            let q = old(self)@.process.condvar_list[c as int]->0.wait_queue;
            if q.len() > 0 {
                assert(q.subrange(1, q.len() as int) =~= q.drop_first());
                assert(self@.process.condvar_list =~= old(self)@.with_condvar(
                    c,
                    CondvarView { wait_queue: q.drop_first() },
                ).process.condvar_list);
            } else {
                assert(self@.process.condvar_list =~= old(self)@.process.condvar_list);
            }
        }
        w
    }

    /// Records the holder of mutex `m`.
    pub(crate) fn set_mutex_alloc(&mut self, m: usize, holder: Option<usize>)
        requires
            m < old(self).process.mutex_alloc.len(),
        ensures
            final(self)@ == old(self)@.with_mutex_alloc(m, holder),
            final(self).process.memory_set == old(self).process.memory_set,
    {
        self.process.mutex_alloc[m] = holder;
    }

    /// Records what task `t` asks for.
    pub(crate) fn set_mutex_request(&mut self, t: usize, req: Option<usize>)
        requires
            t < old(self).process.mutex_request.len(),
        ensures
            final(self)@ == old(self)@.with_mutex_request(t, req),
            final(self).process.memory_set == old(self).process.memory_set,
    {
        self.process.mutex_request[t] = req;
    }

    /// Records which semaphore task `t` waits for.
    pub(crate) fn set_sem_request(&mut self, t: usize, req: Option<usize>)
        requires
            t < old(self).process.sem_request.len(),
        ensures
            final(self)@ == old(self)@.with_sem_request(t, req),
            final(self).process.memory_set == old(self).process.memory_set,
    {
        self.process.sem_request[t] = req;
    }

    /// Records how many instances of semaphore `s` are available and how many task `t` holds.
    pub(crate) fn set_sem_counts(&mut self, t: usize, s: usize, avail: usize, held: usize)
        requires
            t < old(self).process.sem_alloc.len(),
            s < old(self).process.sem_alloc[t as int].len(),
            s < old(self).process.sem_avail.len(),
        ensures
            final(self)@ == old(self)@.with_sem_counts(t, s, avail, held),
            final(self).process.memory_set == old(self).process.memory_set,
    {
        self.process.sem_avail[s] = avail;
        self.process.sem_alloc[t][s] = held;
        proof {
            assert(self@.process.sem_alloc =~= old(self)@.with_sem_counts(
                t,
                s,
                avail,
                held,
            ).process.sem_alloc);
        }
    }
}

impl Kernel {
    /// Makes a detached task ready, still wanting `pend`, and queues it.
    pub fn enqueue_ready(&mut self, t: usize, pend: Pending)
        requires
            old(self).wf(),
            old(self)@.detached(t),
            old(self)@.process.tasks[t as int].pending == Pending::Nothing || old(
                self,
            )@.process.tasks[t as int].pending == pend,
            pend == Pending::Nothing || (pend matches Pending::Mutex(m) && old(self)@.has_mutex(m)
                && old(self)@.process.mutex_request[t as int] == Some(m)),
        ensures
            final(self).wf(),
            final(self)@ == old(self)@.enqueue_ready(t, pend),
    {
        proof {
            lemma_enqueue_ready(self@, t, pend);
        }
        self.set_task_state(t, TaskStatus::Ready, pend);
        self.push_ready(t);
        self.clear_current(t);
    }

    /// Blocks a detached task in the queue of the blocking mutex `m`.
    pub fn park_on_mutex(&mut self, t: usize, m: usize)
        requires
            old(self).wf(),
            old(self)@.detached(t),
            old(self)@.process.tasks[t as int].task_status != TaskStatus::UnInit,
            old(self)@.has_mutex(m),
            old(self)@.process.mutex_list[m as int]->0.blocking,
            old(self)@.process.mutex_request[t as int] == Some(m),
            old(self)@.wants_at_most_mutex(t, m),
        ensures
            final(self).wf(),
            final(self)@ == old(self)@.park_on_mutex(t, m),
    {
        proof {
            lemma_park_on_mutex(self@, t, m);
        }
        self.mutex_push_waiter(m, t);
        self.set_task_state(t, TaskStatus::Blocked, Pending::Mutex(m));
        self.clear_current(t);
    }

    /// Blocks a detached task in the queue of semaphore `s`.
    pub fn park_on_semaphore(&mut self, t: usize, s: usize)
        requires
            old(self).wf(),
            old(self)@.detached(t),
            old(self)@.process.tasks[t as int].task_status != TaskStatus::UnInit,
            old(self)@.has_semaphore(s),
            old(self)@.wants_at_most_semaphore(t, s),
        ensures
            final(self).wf(),
            final(self)@ == old(self)@.park_on_semaphore(t, s),
    {
        proof {
            lemma_park_on_semaphore(self@, t, s);
        }
        self.semaphore_push_waiter(s, t);
        self.set_sem_request(t, Some(s));
        self.set_task_state(t, TaskStatus::Blocked, Pending::Semaphore(s));
        self.clear_current(t);
    }

    /// Blocks a detached task in the queue of condition variable `c`; it takes
    /// mutex `m` once it is signalled.
    pub fn park_on_condvar(&mut self, t: usize, c: usize, m: usize)
        requires
            old(self).wf(),
            old(self)@.detached(t),
            old(self)@.process.tasks[t as int].task_status != TaskStatus::UnInit,
            old(self)@.has_condvar(c),
            old(self)@.has_mutex(m),
            old(self)@.process.tasks[t as int].pending == Pending::Nothing,
        ensures
            final(self).wf(),
            final(self)@ == old(self)@.park_on_condvar(t, c, m),
    {
        proof {
            lemma_park_on_condvar(self@, t, c, m);
        }
        self.condvar_push_waiter(c, t);
        self.set_task_state(t, TaskStatus::Blocked, Pending::Condvar(c, m));
        self.clear_current(t);
    }

    /// Blocks a detached task until the time `expire_ms`.
    pub fn park_on_timer(&mut self, t: usize, expire_ms: usize)
        requires
            old(self).wf(),
            old(self)@.detached(t),
            old(self)@.process.tasks[t as int].task_status != TaskStatus::UnInit,
            old(self)@.process.tasks[t as int].pending == Pending::Nothing,
        ensures
            final(self).wf(),
            final(self)@ == old(self)@.park_on_timer(t, expire_ms),
    {
        proof {
            lemma_park_on_timer(self@, t, expire_ms);
        }
        self.timers.push(Timer { expire_ms, tid: t });
        self.set_task_state(t, TaskStatus::Blocked, Pending::Sleep(expire_ms));
        self.clear_current(t);
    }

    /// Hands the free mutex `m` to task `t`, which is not blocked.
    pub fn grant_mutex(&mut self, t: usize, m: usize)
        requires
            old(self).wf(),
            t < old(self)@.process.tasks.len(),
            old(self)@.process.tasks[t as int].task_status != TaskStatus::Blocked,
            old(self)@.has_mutex(m),
            !old(self)@.process.mutex_list[m as int]->0.locked,
            old(self)@.wants_at_most_mutex(t, m),
        ensures
            final(self).wf(),
            final(self)@ == old(self)@.grant_mutex(t, m),
    {
        proof {
            lemma_grant_mutex(self@, t, m);
        }
        let status = self.process.tasks[t].task_status;
        self.mutex_set_locked(m, true);
        self.set_mutex_alloc(m, Some(t));
        self.set_mutex_request(t, None);
        self.set_task_state(t, status, Pending::Nothing);
    }

    /// Frees mutex `m`.
    pub fn release_mutex(&mut self, m: usize)
        requires
            old(self).wf(),
            old(self)@.has_mutex(m),
        ensures
            final(self).wf(),
            final(self)@ == old(self)@.release_mutex(m),
    {
        proof {
            lemma_release_mutex(self@, m);
        }
        self.mutex_set_locked(m, false);
        self.set_mutex_alloc(m, None);
    }

    /// Wakes the first task in the queue of mutex `m`, if there is one.
    pub fn wake_mutex_waiter(&mut self, m: usize)
        requires
            old(self).wf(),
            old(self)@.has_mutex(m),
        ensures
            final(self).wf(),
            final(self)@ == old(self)@.wake_mutex_waiter(m),
    {
        proof {
            lemma_wake_mutex_waiter(self@, m);
            assert(self@.mutex_ok(m as int));
            let q = self@.process.mutex_list[m as int]->0.wait_queue;
            if q.len() > 0 {
                assert(self@.waits(q[0] as int, Pending::Mutex(m)));
            }
        }
        match self.mutex_pop_waiter(m) {
            Some(w) => {
                self.set_task_state(w, TaskStatus::Ready, Pending::Mutex(m));
                self.push_ready(w);
            },
            None => {},
        }
    }

    /// Hands one instance of semaphore `s` to task `t`, which is not blocked.
    pub fn grant_semaphore(&mut self, t: usize, s: usize)
        requires
            old(self).wf(),
            t < old(self)@.process.tasks.len(),
            old(self)@.process.tasks[t as int].task_status != TaskStatus::Blocked,
            old(self)@.has_semaphore(s),
            old(self)@.process.semaphore_list[s as int]->0.count > 0,
            old(self)@.wants_at_most_semaphore(t, s),
        ensures
            final(self).wf(),
            final(self)@ == old(self)@.grant_semaphore(t, s),
    {
        proof {
            lemma_grant_semaphore(self@, t, s);
            assert(self@.semaphore_ok(s as int));
            assert(self@.process.sem_alloc[t as int] == self.process.sem_alloc[t as int]@);
        }
        let status = self.process.tasks[t].task_status;
        let avail: usize = self.process.sem_avail[s];
        let held: usize = self.process.sem_alloc[t][s];
        self.semaphore_set_count(s, avail - 1);
        self.set_sem_counts(t, s, avail - 1, held + 1);
        self.set_sem_request(t, None);
        self.set_task_state(t, status, Pending::Nothing);
    }

    /// Puts one instance into semaphore `s` on behalf of task `t`.
    pub fn return_semaphore(&mut self, t: usize, s: usize)
        requires
            old(self).wf(),
            t < old(self)@.process.tasks.len(),
            old(self)@.has_semaphore(s),
            old(self)@.process.sem_alloc[t as int][s as int] > 0 || old(
                self,
            )@.process.sem_total[s as int] < usize::MAX,
        ensures
            final(self).wf(),
            final(self)@ == old(self)@.return_semaphore(t, s),
    {
        proof {
            lemma_return_semaphore(self@, t, s);
            assert(self@.process.sem_alloc[t as int] == self.process.sem_alloc[t as int]@);
        }
        let avail: usize = self.process.sem_avail[s];
        let held: usize = self.process.sem_alloc[t][s];
        self.semaphore_set_count(s, avail + 1);
        if held > 0 {
            self.set_sem_counts(t, s, avail + 1, held - 1);
        } else {
            self.set_sem_counts(t, s, avail + 1, held);
            let total: usize = self.process.sem_total[s];
            self.process.sem_total[s] = total + 1;
        }
    }

    /// Wakes the first task in the queue of semaphore `s`, if there is one.
    pub fn wake_semaphore_waiter(&mut self, s: usize)
        requires
            old(self).wf(),
            old(self)@.has_semaphore(s),
        ensures
            final(self).wf(),
            final(self)@ == old(self)@.wake_semaphore_waiter(s),
    {
        proof {
            lemma_wake_semaphore_waiter(self@, s);
            assert(self@.semaphore_ok(s as int));
            let q = self@.process.semaphore_list[s as int]->0.wait_queue;
            if q.len() > 0 {
                assert(self@.waits(q[0] as int, Pending::Semaphore(s)));
            }
        }
        match self.semaphore_pop_waiter(s) {
            Some(w) => {
                self.set_task_state(w, TaskStatus::Ready, Pending::Semaphore(s));
                self.push_ready(w);
            },
            None => {},
        }
    }

    /// Wakes the first task in the queue of condition variable `c`, if there
    /// is one; from now on it asks for its mutex.
    pub fn wake_condvar_waiter(&mut self, c: usize)
        requires
            old(self).wf(),
            old(self)@.has_condvar(c),
        ensures
            final(self).wf(),
            final(self)@ == old(self)@.wake_condvar_waiter(c),
    {
        proof {
            lemma_wake_condvar_waiter(self@, c);
            assert(self@.condvar_ok(c as int));
            let q = self@.process.condvar_list[c as int]->0.wait_queue;
            if q.len() > 0 {
                assert(self@.waits_on_condvar(q[0] as int, c as int));
            }
        }
        match self.condvar_pop_waiter(c) {
            Some(w) => {
                match self.process.tasks[w].pending {
                    Pending::Condvar(_, m) => {
                        self.set_mutex_request(w, Some(m));
                        self.set_task_state(w, TaskStatus::Ready, Pending::Mutex(m));
                        self.push_ready(w);
                    },
                    _ => {},
                }
            },
            None => {},
        }
    }

    /// Ends the sleep behind the timer at index `i`.
    pub fn wake_timer(&mut self, i: usize)
        requires
            old(self).wf(),
            i < old(self)@.timers.len(),
        ensures
            final(self).wf(),
            final(self)@ == old(self)@.wake_timer(i as int),
    {
        proof {
            lemma_wake_timer(self@, i as int);
            assert(self@.waits(
                self@.timers[i as int].tid as int,
                Pending::Sleep(self@.timers[i as int].expire_ms),
            ));
        }
        let timer = self.timers.remove(i);
        self.set_task_state(timer.tid, TaskStatus::Ready, Pending::Nothing);
        self.push_ready(timer.tid);
    }

    /// Takes the first task off the ready queue, if there is one.
    pub fn pop_ready(&mut self) -> (t: Option<usize>)
        requires
            old(self).wf(),
        ensures
            final(self).wf(),
            old(self)@.ready.len() == 0 ==> t is None && final(self)@ == old(self)@,
            old(self)@.ready.len() > 0 ==> t == Some(old(self)@.ready[0]) && final(self)@ == old(
                self,
            )@.pop_ready() && final(self)@.detached(old(self)@.ready[0]) && old(
                self,
            )@.process.tasks[old(self)@.ready[0] as int].task_status == TaskStatus::Ready,
    {
        proof {
            if self@.ready.len() > 0 {
                lemma_pop_ready(self@);
            }
        }
        self.task_manager.fetch()
    }

    /// Lets the detached ready task `t` run.
    pub fn dispatch(&mut self, t: usize, now_us: usize)
        requires
            old(self).wf(),
            old(self)@.detached(t),
            old(self)@.process.tasks[t as int].task_status == TaskStatus::Ready,
            old(self)@.current is None,
        ensures
            final(self).wf(),
            final(self)@ == old(self)@.dispatch(t, now_us),
    {
        proof {
            lemma_dispatch(self@, t, now_us);
        }
        self.process.tasks[t].task_status = TaskStatus::Running;
        if self.process.tasks[t].start_time.is_none() {
            self.process.tasks[t].start_time = Some(now_us);
        }
        self.processor.current = Some(t);
        proof {
            assert(self@.process.tasks =~= old(self)@.dispatch(t, now_us).process.tasks);
        }
    }

    /// Ends the running task with the exit code `code`.
    pub fn exit_current(&mut self, code: i32)
        requires
            old(self).wf(),
            old(self)@.calling(),
        ensures
            final(self).wf(),
            final(self)@ == old(self)@.exit_current(code),
    {
        proof {
            lemma_exit_current(self@, code);
        }
        match self.processor.current {
            Some(t) => {
                self.process.tasks[t].task_status = TaskStatus::Exited;
                self.process.tasks[t].exit_code = Some(code);
                self.process.mutex_request[t] = None;
                self.processor.current = None;
                proof {
                    assert(self@.process.tasks =~= old(self)@.exit_current(code).process.tasks);
                }
            },
            None => {},
        }
    }
}

/// A row of `n` zero counts.
pub fn zero_row(n: usize) -> (row: Vec<usize>)
    ensures
        row@ == Seq::new(n as nat, |s: int| 0usize),
{
    let mut row: Vec<usize> = Vec::new();
    let mut i: usize = 0;
    while i < n
        invariant
            i <= n,
            row@ == Seq::new(i as nat, |s: int| 0usize),
        decreases n - i,
    {
        row.push(0);
        i = i + 1;
        proof {
            assert(row@ =~= Seq::new(i as nat, |s: int| 0usize));
        }
    }
    row
}

impl Kernel {
    /// A kernel with a process that has no task yet, and an address space
    /// named `token` with the frames `frame_start..frame_end` and an empty heap
    /// at the page-aligned address `heap_bottom`.
    pub fn new(token: usize, frame_start: usize, frame_end: usize, heap_bottom: usize) -> (k: Self)
        requires
            frame_start <= frame_end <= crate::mm::frame_allocator::frame_limit(),
            heap_bottom % crate::config::PAGE_SIZE == 0,
        ensures
            k.wf(),
            k@.process.tasks.len() == 0,
            k@.process.mutex_list.len() == 0,
            k@.process.semaphore_list.len() == 0,
            k@.process.condvar_list.len() == 0,
            !k@.process.deadlock_detection_enabled,
            k@.current is None,
            k@.ready.len() == 0,
            k@.timers.len() == 0,
            k@.process.memory_set == crate::mm::memory_set::MemorySetView::empty(
                token,
                frame_start,
                frame_end,
                heap_bottom,
            ),
    {
        Kernel {
            process: crate::task::process::Process {
                tasks: Vec::new(),
                memory_set: crate::mm::memory_set::MemorySet::new(
                    token,
                    frame_start,
                    frame_end,
                    heap_bottom,
                ),
                mutex_list: Vec::new(),
                semaphore_list: Vec::new(),
                condvar_list: Vec::new(),
                mutex_alloc: Vec::new(),
                mutex_request: Vec::new(),
                sem_avail: Vec::new(),
                sem_alloc: Vec::new(),
                sem_request: Vec::new(),
                sem_total: Vec::new(),
                deadlock_detection_enabled: false,
            },
            processor: crate::task::processor::Processor::new(),
            task_manager: crate::task::manager::TaskManager::new(),
            timers: Vec::new(),
        }
    }

    /// Adds a task with the saved context `cx` and returns its id. The task
    /// is not yet eligible to run.
    pub fn spawn(&mut self, cx: TaskContext) -> (tid: usize)
        requires
            old(self).wf(),
            old(self)@.process.tasks.len() < usize::MAX,
        ensures
            final(self).wf(),
            final(self)@ == old(self)@.spawn(cx),
            tid == old(self)@.process.tasks.len(),
    {
        proof {
            lemma_spawn(self@, cx);
        }
        let tid: usize = self.process.tasks.len();
        let row = zero_row(self.process.semaphore_list.len());
        self.process.tasks.push(TaskControlBlock::new(tid, cx));
        self.process.mutex_request.push(None);
        self.process.sem_request.push(None);
        self.process.sem_alloc.push(row);
        proof {
            assert(self@.process.sem_alloc =~= old(self)@.spawn(cx).process.sem_alloc);
        }
        tid
    }

    /// Makes a task that has not run yet eligible to run.
    pub fn add_task(&mut self, tid: usize)
        requires
            old(self).wf(),
            tid < old(self)@.process.tasks.len(),
            old(self)@.process.tasks[tid as int].task_status == TaskStatus::UnInit,
        ensures
            final(self).wf(),
            final(self)@ == old(self)@.enqueue_ready(tid, Pending::Nothing),
    {
        proof {
            let k = self@;
            assert(k.task_ok(tid as int));
            if k.ready.contains(tid) {
                let i = choose|i: int| 0 <= i < k.ready.len() && k.ready[i] == tid;
                assert(k.process.tasks[k.ready[i] as int].task_status == TaskStatus::Ready);
            }
        }
        self.enqueue_ready(tid, Pending::Nothing);
    }

    /// Puts a new mutex into the first free slot, or appends it; returns its id.
    pub fn create_mutex(&mut self, blocking: bool) -> (id: usize)
        requires
            old(self).wf(),
            first_free(old(self)@.process.mutex_list) < usize::MAX,
        ensures
            final(self).wf(),
            final(self)@ == old(self)@.create_mutex(blocking),
            id == first_free(old(self)@.process.mutex_list),
    {
        proof {
            lemma_create_mutex(self@, blocking);
        }
        let n: usize = self.process.mutex_list.len();
        let mut id: usize = 0;
        while id < n && self.process.mutex_list[id].is_some()
            invariant
                id <= n,
                n == self.process.mutex_list.len(),
                forall|j: int| 0 <= j < id ==> (#[trigger] self@.process.mutex_list[j]) is Some,
            decreases n - id,
        {
            id = id + 1;
        }
        proof {
            lemma_first_free_is(self@.process.mutex_list, id as int);
        }
        if id < n {
            self.process.mutex_list[id] = Some(crate::sync::mutex::Mutex::new(blocking));
        } else {
            self.process.mutex_list.push(Some(crate::sync::mutex::Mutex::new(blocking)));
            self.process.mutex_alloc.push(None);
        }
        proof {
            assert(self@.process.mutex_list =~= old(self)@.create_mutex(
                blocking,
            ).process.mutex_list);
        }
        id
    }

    /// Puts a new semaphore with `res_count` instances into the first free
    /// slot, or appends it; returns its id.
    pub fn create_semaphore(&mut self, res_count: usize) -> (id: usize)
        requires
            old(self).wf(),
            first_free(old(self)@.process.semaphore_list) < usize::MAX,
        ensures
            final(self).wf(),
            final(self)@ == old(self)@.create_semaphore(res_count),
            id == first_free(old(self)@.process.semaphore_list),
    {
        proof {
            lemma_create_semaphore(self@, res_count);
        }
        let n: usize = self.process.semaphore_list.len();
        let mut id: usize = 0;
        while id < n && self.process.semaphore_list[id].is_some()
            invariant
                id <= n,
                n == self.process.semaphore_list.len(),
                forall|j: int| 0 <= j < id ==> (#[trigger] self@.process.semaphore_list[j]) is Some,
            decreases n - id,
        {
            id = id + 1;
        }
        proof {
            lemma_first_free_is(self@.process.semaphore_list, id as int);
        }
        if id < n {
            self.process.semaphore_list[id] = Some(
                crate::sync::semaphore::Semaphore::new(res_count),
            );
            self.process.sem_avail[id] = res_count;
            self.process.sem_total[id] = res_count;
        } else {
            self.process.semaphore_list.push(
                Some(crate::sync::semaphore::Semaphore::new(res_count)),
            );
            self.process.sem_avail.push(res_count);
            self.process.sem_total.push(res_count);
            let rows: usize = self.process.sem_alloc.len();
            let mut t: usize = 0;
            while t < rows
                invariant
                    t <= rows,
                    rows == self.process.sem_alloc.len(),
                    rows == old(self).process.sem_alloc.len(),
                    forall|u: int|
                        0 <= u < t ==> (#[trigger] self.process.sem_alloc[u])@ == old(
                            self,
                        ).process.sem_alloc[u]@.push(0usize),
                    forall|u: int|
                        t <= u < rows ==> (#[trigger] self.process.sem_alloc[u])@ == old(
                            self,
                        ).process.sem_alloc[u]@,
                    self.process.tasks == old(self).process.tasks,
                    self.process.memory_set == old(self).process.memory_set,
                    self.process.mutex_list == old(self).process.mutex_list,
                    self.process.condvar_list == old(self).process.condvar_list,
                    self.process.mutex_alloc == old(self).process.mutex_alloc,
                    self.process.mutex_request == old(self).process.mutex_request,
                    self.process.sem_request == old(self).process.sem_request,
                    self.process.deadlock_detection_enabled == old(
                        self,
                    ).process.deadlock_detection_enabled,
                    self.process.sem_avail@ == old(self).process.sem_avail@.push(res_count),
                    self.process.sem_total@ == old(self).process.sem_total@.push(res_count),
                    self.process.semaphore_list@.len() == n + 1,
                    self@.process.semaphore_list == old(self)@.create_semaphore(
                        res_count,
                    ).process.semaphore_list,
                    self.processor == old(self).processor,
                    self.task_manager == old(self).task_manager,
                    self.timers == old(self).timers,
                decreases rows - t,
            {
                self.process.sem_alloc[t].push(0);
                t = t + 1;
            }
        }
        proof {
            assert(self@.process.semaphore_list =~= old(self)@.create_semaphore(
                res_count,
            ).process.semaphore_list);
            assert(self@.process.sem_alloc =~= old(self)@.create_semaphore(
                res_count,
            ).process.sem_alloc);
        }
        id
    }

    /// Puts a new condition variable into the first free slot, or appends it;
    /// returns its id.
    pub fn create_condvar(&mut self) -> (id: usize)
        requires
            old(self).wf(),
            first_free(old(self)@.process.condvar_list) < usize::MAX,
        ensures
            final(self).wf(),
            final(self)@ == old(self)@.create_condvar(),
            id == first_free(old(self)@.process.condvar_list),
    {
        proof {
            lemma_create_condvar(self@);
        }
        let n: usize = self.process.condvar_list.len();
        let mut id: usize = 0;
        while id < n && self.process.condvar_list[id].is_some()
            invariant
                id <= n,
                n == self.process.condvar_list.len(),
                forall|j: int| 0 <= j < id ==> (#[trigger] self@.process.condvar_list[j]) is Some,
            decreases n - id,
        {
            id = id + 1;
        }
        proof {
            lemma_first_free_is(self@.process.condvar_list, id as int);
        }
        if id < n {
            self.process.condvar_list[id] = Some(crate::sync::condvar::Condvar::new());
        } else {
            self.process.condvar_list.push(Some(crate::sync::condvar::Condvar::new()));
        }
        proof {
            assert(self@.process.condvar_list =~= old(self)@.create_condvar().process.condvar_list);
        }
        id
    }
}

impl KernelView {
    /// The state with the address space `ms`.
    pub open spec fn with_memory_set(self, ms: crate::mm::memory_set::MemorySetView) -> KernelView {
        KernelView { process: ProcessView { memory_set: ms, ..self.process }, ..self }
    }
}

/// Replacing the address space by a well-formed one keeps the invariant.
pub proof fn lemma_with_memory_set(k: KernelView, ms: crate::mm::memory_set::MemorySetView)
    requires
        k.wf(),
        ms.wf(),
    ensures
        k.with_memory_set(ms).wf(),
{
    let k2 = k.with_memory_set(ms);
    assert forall|u: int| 0 <= u < k2.process.tasks.len() implies #[trigger] k2.task_ok(u) by {
        assert(k.task_ok(u));
    }
    assert forall|j: int| 0 <= j < k2.process.mutex_list.len() implies #[trigger] k2.mutex_ok(
        j,
    ) by {
        assert(k.mutex_ok(j));
    }
    assert forall|j: int| 0 <= j < k2.process.semaphore_list.len() implies #[trigger] k2.semaphore_ok(
        j,
    ) by {
        assert(k.semaphore_ok(j));
    }
    assert forall|j: int| 0 <= j < k2.process.condvar_list.len() implies #[trigger] k2.condvar_ok(
        j,
    ) by {
        assert(k.condvar_ok(j));
    }
    assert(k2.ready_ok());
    assert(k2.timers_ok());
}

} // verus!
