//! Deadlock detection over the bookkeeping tables of a process.
//!
//! Two detectors are provided. The first walks the wait-for chain of mutexes,
//! where every task waits for at most one mutex and every mutex has at most one
//! holder. The second runs a safety check over the semaphore allocation matrix.

use std::collections::BTreeSet;
use vstd::prelude::*;

verus! {

/// A finite set of numbers below `n` has at most `n` elements.
pub proof fn lemma_bounded_set_len(s: Set<usize>, n: nat)
    requires
        s.finite(),
        forall|x: usize| s.contains(x) ==> x < n,
    ensures
        s.len() <= n,
    decreases n,
{
    if n == 0 {
        assert(s =~= Set::<usize>::empty());
    } else {
        let top = (n - 1) as usize;
        let rest = s.remove(top);
        assert forall|x: usize| rest.contains(x) implies x < n - 1 by {
            assert(s.contains(x));
        }
        lemma_bounded_set_len(rest, (n - 1) as nat);
    }
}

/// The membership of the numbers below `n` in a set, as a sequence of marks.
pub open spec fn marks(s: Set<usize>, n: nat) -> Seq<bool> {
    Seq::new(n, |u: int| s.contains(u as usize))
}

/// The task that task `t` waits for: the holder of the mutex that `t` requests.
pub open spec fn waits_for(alloc: Seq<Option<usize>>, request: Seq<Option<usize>>, t: int) -> Option<
    usize,
> {
    if 0 <= t < request.len() {
        match request[t] {
            Some(m) => if m < alloc.len() {
                alloc[m as int]
            } else {
                None
            },
            None => None,
        }
    } else {
        None
    }
}

/// The `k`-th task on the wait-for chain that starts at task `start`.
pub open spec fn chain_at(
    alloc: Seq<Option<usize>>,
    request: Seq<Option<usize>>,
    start: usize,
    k: nat,
) -> Option<usize>
    decreases k,
{
    if k == 0 {
        Some(start)
    } else {
        match chain_at(alloc, request, start, (k - 1) as nat) {
            Some(t) => waits_for(alloc, request, t as int),
            None => None,
        }
    }
}

/// The wait-for chain from `start` comes back to a task it has already passed.
pub open spec fn chain_revisits(
    alloc: Seq<Option<usize>>,
    request: Seq<Option<usize>>,
    start: usize,
) -> bool {
    exists|j: nat, k: nat|
        j < k && chain_at(alloc, request, start, k) is Some && #[trigger] chain_at(
            alloc,
            request,
            start,
            j,
        ) == #[trigger] chain_at(alloc, request, start, k)
}

/// Once a chain has ended it stays ended.
pub proof fn lemma_chain_ends(
    alloc: Seq<Option<usize>>,
    request: Seq<Option<usize>>,
    start: usize,
    k: nat,
    j: nat,
)
    requires
        chain_at(alloc, request, start, k) is None,
        k <= j,
    ensures
        chain_at(alloc, request, start, j) is None,
    decreases j,
{
    if j > k {
        lemma_chain_ends(alloc, request, start, k, (j - 1) as nat);
    }
}

/// Walks the wait-for chain from `tid` and reports whether a task is met twice.
///
/// `request[tid]` is expected to hold the request that `tid` is about to make.
pub fn mutex_wait_cycle(
    alloc: &Vec<Option<usize>>,
    request: &Vec<Option<usize>>,
    tid: usize,
) -> (cycle: bool)
    requires
        tid < request.len(),
    ensures
        cycle == chain_revisits(alloc@, request@, tid),
{
    let n: usize = request.len();
    let mut visited: BTreeSet<usize> = BTreeSet::new();
    visited.insert(tid);
    let mut cur: usize = tid;
    let ghost mut k: nat = 0;
    proof {
        assert(chain_at(alloc@, request@, tid, 0) == Some(tid));
    }
    loop
        invariant
            n == request.len(),
            cur < n,
            visited@.finite(),
            visited@.len() == k + 1,
            chain_at(alloc@, request@, tid, k) == Some(cur),
            forall|j: nat| j <= k ==> (#[trigger] chain_at(alloc@, request@, tid, j)) is Some,
            forall|i: nat, j: nat|
                i < j <= k ==> #[trigger] chain_at(alloc@, request@, tid, i) != #[trigger] chain_at(
                    alloc@,
                    request@,
                    tid,
                    j,
                ),
            forall|t: usize|
                #[trigger] visited@.contains(t) ==> t < n && exists|j: nat|
                    j <= k && #[trigger] chain_at(alloc@, request@, tid, j) == Some(t),
            forall|j: nat|
                j <= k ==> match #[trigger] chain_at(alloc@, request@, tid, j) {
                    Some(t) => visited@.contains(t),
                    None => false,
                },
        decreases n - visited@.len(),
    {
        proof {
            lemma_bounded_set_len(visited@, n as nat);
        }
        let next: Option<usize> = match request[cur] {
            Some(m) => if m < alloc.len() {
                alloc[m]
            } else {
                None
            },
            None => None,
        };
        assert(next == waits_for(alloc@, request@, cur as int));
        assert(chain_at(alloc@, request@, tid, k + 1) == next);
        match next {
            None => {
                proof {
                    assert forall|i: nat, j: nat|
                        i < j && chain_at(alloc@, request@, tid, j) is Some implies #[trigger] chain_at(
                        alloc@,
                        request@,
                        tid,
                        i,
                    ) != #[trigger] chain_at(alloc@, request@, tid, j) by {
                        if j > k {
                            lemma_chain_ends(alloc@, request@, tid, k + 1, j);
                        }
                    }
                }
                return false;
            },
            Some(t2) => {
                if t2 >= n {
                    proof {
                        assert(chain_at(alloc@, request@, tid, k + 2) is None);
                        assert forall|i: nat, j: nat|
                            i < j && chain_at(alloc@, request@, tid, j) is Some implies #[trigger] chain_at(
                            alloc@,
                            request@,
                            tid,
                            i,
                        ) != #[trigger] chain_at(alloc@, request@, tid, j) by {
                            if j > k + 1 {
                                lemma_chain_ends(alloc@, request@, tid, k + 2, j);
                            } else if j == k + 1 {
                                // every earlier task is in range, this one is not
                                assert(chain_at(alloc@, request@, tid, i) is Some);
                                assert(visited@.contains(chain_at(alloc@, request@, tid, i)->0));
                            }
                        }
                    }
                    return false;
                }
                if visited.contains(&t2) {
                    proof {
                        let j = choose|j: nat|
                            j <= k && #[trigger] chain_at(alloc@, request@, tid, j) == Some(t2);
                        assert(j < k + 1 && chain_at(alloc@, request@, tid, j) == chain_at(
                            alloc@,
                            request@,
                            tid,
                            k + 1,
                        ));
                    }
                    return true;
                }
                let ghost before = visited@;
                visited.insert(t2);
                cur = t2;
                proof {
                    k = k + 1;
                    assert forall|t: usize| #[trigger] visited@.contains(t) implies t < n
                        && exists|j: nat|
                        j <= k && #[trigger] chain_at(alloc@, request@, tid, j) == Some(t) by {
                        if t == t2 {
                            assert(chain_at(alloc@, request@, tid, k) == Some(t));
                        } else {
                            assert(before.contains(t));
                            let j = choose|j: nat|
                                j <= k - 1 && #[trigger] chain_at(alloc@, request@, tid, j) == Some(
                                    t,
                                );
                            assert(j <= k);
                        }
                    }
                    assert forall|i: nat, j: nat| i < j <= k implies #[trigger] chain_at(
                        alloc@,
                        request@,
                        tid,
                        i,
                    ) != #[trigger] chain_at(alloc@, request@, tid, j) by {
                        if j == k {
                            assert(before.contains(chain_at(alloc@, request@, tid, i)->0));
                        }
                    }
                    lemma_bounded_set_len(visited@, n as nat);
                }
            },
        }
    }
}

/// Instances of semaphore `s` that task `t` holds; zero outside the matrix.
pub open spec fn held_by(alloc: Seq<Seq<usize>>, t: int, s: int) -> nat {
    if 0 <= t < alloc.len() && 0 <= s < alloc[t].len() {
        alloc[t][s] as nat
    } else {
        0
    }
}

/// Instances of semaphore `s` held by the first `n` tasks together.
pub open spec fn held_upto(alloc: Seq<Seq<usize>>, s: int, n: nat) -> nat
    decreases n,
{
    if n == 0 {
        0
    } else {
        held_upto(alloc, s, (n - 1) as nat) + held_by(alloc, n - 1, s)
    }
}

/// Instances of semaphore `s` held by all tasks together.
pub open spec fn held_total(alloc: Seq<Seq<usize>>, s: int) -> nat {
    held_upto(alloc, s, alloc.len())
}

/// Instances of semaphore `s` held by those of the first `n` tasks that `finished` marks.
pub open spec fn released_upto(alloc: Seq<Seq<usize>>, finished: Seq<bool>, s: int, n: nat) -> nat
    decreases n,
{
    if n == 0 {
        0
    } else {
        released_upto(alloc, finished, s, (n - 1) as nat) + if n - 1 < finished.len()
            && finished[n - 1] {
            held_by(alloc, n - 1, s)
        } else {
            0
        }
    }
}

/// Task `t` holds at least one instance of some semaphore.
pub open spec fn holds_any(alloc: Seq<Seq<usize>>, t: int) -> bool {
    exists|s: int| #[trigger] held_by(alloc, t, s) > 0
}

/// Task `t` cannot proceed while the tasks in `blocked` keep what they hold:
/// it holds something, and it requests a semaphore of which no instance is
/// available or held by a task outside `blocked`.
pub open spec fn stuck_member(
    avail: Seq<usize>,
    alloc: Seq<Seq<usize>>,
    request: Seq<Option<usize>>,
    blocked: Set<int>,
    t: int,
) -> bool {
    &&& 0 <= t < alloc.len()
    &&& t < request.len()
    &&& holds_any(alloc, t)
    &&& request[t] matches Some(s)
    &&& s < avail.len()
    &&& avail[s as int] == 0
    &&& forall|u: int|
        0 <= u < alloc.len() && !blocked.contains(u) ==> #[trigger] held_by(alloc, u, s as int)
            == 0
}

/// `blocked` is a non-empty set of tasks none of which can ever proceed.
pub open spec fn stuck_set(
    avail: Seq<usize>,
    alloc: Seq<Seq<usize>>,
    request: Seq<Option<usize>>,
    blocked: Set<int>,
) -> bool {
    &&& exists|t: int| blocked.contains(t)
    &&& forall|t: int| #[trigger]
        blocked.contains(t) ==> stuck_member(avail, alloc, request, blocked, t)
}

/// Some set of tasks is stuck: the state is not safe.
pub open spec fn semaphores_deadlocked(
    avail: Seq<usize>,
    alloc: Seq<Seq<usize>>,
    request: Seq<Option<usize>>,
) -> bool {
    exists|blocked: Set<int>| stuck_set(avail, alloc, request, blocked)
}

/// What the marked tasks hold is part of what all tasks hold.
pub proof fn lemma_released_bounded(alloc: Seq<Seq<usize>>, finished: Seq<bool>, s: int, n: nat)
    ensures
        released_upto(alloc, finished, s, n) <= held_upto(alloc, s, n),
    decreases n,
{
    if n > 0 {
        lemma_released_bounded(alloc, finished, s, (n - 1) as nat);
    }
}

/// Marking one more task adds what it holds.
pub proof fn lemma_released_mark(
    alloc: Seq<Seq<usize>>,
    finished: Seq<bool>,
    t: int,
    s: int,
    n: nat,
)
    requires
        0 <= t < finished.len(),
        !finished[t],
    ensures
        released_upto(alloc, finished.update(t, true), s, n) == released_upto(
            alloc,
            finished,
            s,
            n,
        ) + if t < n {
            held_by(alloc, t, s)
        } else {
            0
        },
    decreases n,
{
    if n > 0 {
        lemma_released_mark(alloc, finished, t, s, (n - 1) as nat);
    }
}

/// The marked tasks hold nothing of `s` exactly when each of them holds nothing of it.
pub proof fn lemma_released_zero(alloc: Seq<Seq<usize>>, finished: Seq<bool>, s: int, n: nat)
    ensures
        released_upto(alloc, finished, s, n) == 0 <==> (forall|u: int|
            0 <= u < n && u < finished.len() && finished[u] ==> #[trigger] held_by(alloc, u, s)
                == 0),
    decreases n,
{
    if n > 0 {
        lemma_released_zero(alloc, finished, s, (n - 1) as nat);
        if released_upto(alloc, finished, s, n) == 0 {
            assert forall|u: int|
                0 <= u < n && u < finished.len() && finished[u] implies #[trigger] held_by(
                alloc,
                u,
                s,
            ) == 0 by {}
        }
    }
}

/// A task's holding is part of the total.
pub proof fn lemma_held_member(alloc: Seq<Seq<usize>>, t: int, s: int, n: nat)
    requires
        0 <= t < n,
    ensures
        held_by(alloc, t, s) <= held_upto(alloc, s, n),
    decreases n,
{
    if t < n - 1 {
        lemma_held_member(alloc, t, s, (n - 1) as nat);
    }
}

/// Two matrices whose first `n` rows agree on column `s` have the same partial total.
pub proof fn lemma_held_same(a: Seq<Seq<usize>>, b: Seq<Seq<usize>>, s: int, n: nat)
    requires
        forall|u: int| 0 <= u < n ==> held_by(a, u, s) == held_by(b, u, s),
    ensures
        held_upto(a, s, n) == held_upto(b, s, n),
    decreases n,
{
    if n > 0 {
        lemma_held_same(a, b, s, (n - 1) as nat);
    }
}

/// A column in which nobody holds anything has total zero.
pub proof fn lemma_held_zero(a: Seq<Seq<usize>>, s: int, n: nat)
    requires
        forall|u: int| 0 <= u < n ==> held_by(a, u, s) == 0,
    ensures
        held_upto(a, s, n) == 0,
    decreases n,
{
    if n > 0 {
        lemma_held_zero(a, s, (n - 1) as nat);
    }
}

/// Where only task `t` holds a different amount, the totals differ by that amount.
pub proof fn lemma_held_change(a: Seq<Seq<usize>>, b: Seq<Seq<usize>>, t: int, s: int, n: nat)
    requires
        0 <= t < n,
        forall|u: int| 0 <= u < n && u != t ==> held_by(a, u, s) == held_by(b, u, s),
    ensures
        held_upto(b, s, n) - held_by(b, t, s) == held_upto(a, s, n) - held_by(a, t, s),
    decreases n,
{
    if t < n - 1 {
        lemma_held_change(a, b, t, s, (n - 1) as nat);
    } else {
        lemma_held_same(a, b, s, (n - 1) as nat);
    }
}

/// The complement of the pending marks.
pub open spec fn finished_mask(pending: Seq<bool>) -> Seq<bool> {
    Seq::new(pending.len(), |u: int| !pending[u])
}

/// The allocation matrix as a sequence of rows.
pub open spec fn matrix_view(alloc: &Vec<Vec<usize>>) -> Seq<Seq<usize>> {
    Seq::new(alloc.len() as nat, |t: int| alloc[t]@)
}

/// Whether a row of the allocation matrix holds anything.
pub fn row_holds_any(row: &Vec<usize>) -> (any: bool)
    ensures
        any == exists|s: int| 0 <= s < row.len() && #[trigger] row[s] > 0,
{
    let mut s: usize = 0;
    while s < row.len()
        invariant
            s <= row.len(),
            forall|j: int| 0 <= j < s ==> #[trigger] row[j] == 0,
        decreases row.len() - s,
    {
        if row[s] > 0 {
            return true;
        }
        s = s + 1;
    }
    false
}

/// A copy of a vector of counts.
pub fn copy_counts(v: &Vec<usize>) -> (w: Vec<usize>)
    ensures
        w@ == v@,
{
    let mut w: Vec<usize> = Vec::new();
    let mut i: usize = 0;
    while i < v.len()
        invariant
            i <= v.len(),
            w@ == v@.take(i as int),
        decreases v.len() - i,
    {
        w.push(v[i]);
        proof {
            assert(v@.take(i as int).push(v@[i as int]) =~= v@.take(i + 1));
        }
        i = i + 1;
    }
    proof {
        assert(v@.take(v.len() as int) =~= v@);
    }
    w
}

/// The tables have matching dimensions and no column can overflow a counter.
pub open spec fn matrix_ok(avail: Seq<usize>, alloc: Seq<Seq<usize>>, request: Seq<Option<usize>>) -> bool {
    &&& request.len() == alloc.len()
    &&& forall|t: int| 0 <= t < alloc.len() ==> (#[trigger] alloc[t]).len() == avail.len()
    &&& forall|s: int|
        0 <= s < avail.len() ==> avail[s] + #[trigger] held_total(alloc, s) <= usize::MAX
}

/// Task `u` is refused in the current pass: it requests a semaphore with nothing to hand out.
pub open spec fn refused(work: Seq<usize>, request: Seq<Option<usize>>, u: int) -> bool {
    &&& 0 <= u < request.len()
    &&& request[u] matches Some(s)
    &&& s < work.len()
    &&& work[s as int] == 0
}

/// The invariant of the safety check: pending tasks hold something, `work` is
/// what is available plus what the finished tasks held, and every stuck set
/// lies within the pending tasks.
pub open spec fn check_inv(
    avail: Seq<usize>,
    alloc: Seq<Seq<usize>>,
    request: Seq<Option<usize>>,
    work: Seq<usize>,
    pending: Seq<bool>,
) -> bool {
    &&& pending.len() == alloc.len()
    &&& work.len() == avail.len()
    &&& forall|u: int| 0 <= u < pending.len() && #[trigger] pending[u] ==> holds_any(alloc, u)
    &&& forall|s: int|
        0 <= s < work.len() ==> #[trigger] work[s] == avail[s] + released_upto(
            alloc,
            finished_mask(pending),
            s,
            alloc.len(),
        )
    &&& forall|blocked: Set<int>, u: int|
        #[trigger] stuck_set(avail, alloc, request, blocked) && #[trigger] blocked.contains(u)
            ==> 0 <= u < pending.len() && pending[u]
}

/// Finishing task `t`, which is not refused, keeps every stuck set within the pending tasks.
proof fn lemma_finish_keeps_stuck_sets(
    avail: Seq<usize>,
    alloc: Seq<Seq<usize>>,
    request: Seq<Option<usize>>,
    work: Seq<usize>,
    pending: Seq<bool>,
    t: int,
)
    requires
        matrix_ok(avail, alloc, request),
        check_inv(avail, alloc, request, work, pending),
        0 <= t < pending.len(),
        pending[t],
        !refused(work, request, t),
    ensures
        forall|blocked: Set<int>, u: int|
            #[trigger] stuck_set(avail, alloc, request, blocked) && #[trigger] blocked.contains(u)
                ==> 0 <= u < pending.len() && pending.update(t, false)[u],
{
    assert forall|blocked: Set<int>, u: int|
        #[trigger] stuck_set(avail, alloc, request, blocked) && #[trigger] blocked.contains(
            u,
        ) implies 0 <= u < pending.len() && pending.update(t, false)[u] by {
        assert(pending[u]);
        if u == t {
            assert(stuck_member(avail, alloc, request, blocked, t));
            let s = request[t]->0 as int;
            let fin = finished_mask(pending);
            assert forall|v: int|
                0 <= v < alloc.len() && v < fin.len() && fin[v] implies #[trigger] held_by(
                alloc,
                v,
                s,
            ) == 0 by {
                if blocked.contains(v) {
                    assert(pending[v]);
                }
            }
            lemma_released_zero(alloc, fin, s, alloc.len());
            assert(work[s] == 0);
            assert(false);
        }
    }
}

/// Decides whether the semaphore tables describe an unsafe state.
///
/// Starting from what is available, every task that holds something and is
/// not waiting for an exhausted semaphore is taken to finish and to give back
/// what it holds, until no further task can finish. The state is unsafe when
/// some task is left over.
pub fn semaphore_wait_deadlock(
    avail: &Vec<usize>,
    alloc: &Vec<Vec<usize>>,
    request: &Vec<Option<usize>>,
) -> (stuck: bool)
    requires
        matrix_ok(avail@, matrix_view(alloc), request@),
    ensures
        stuck == semaphores_deadlocked(avail@, matrix_view(alloc), request@),
{
    let n: usize = alloc.len();
    let m: usize = avail.len();
    let mut work: Vec<usize> = copy_counts(avail);
    let mut not_finished: BTreeSet<usize> = BTreeSet::new();
    let mut t: usize = 0;
    proof {
        assert forall|u: int| 0 <= u < alloc.len() implies (#[trigger] alloc@[u]).len()
            == avail.len() by {
            assert(matrix_view(alloc)[u] == alloc@[u]@);
        }
    }
    while t < n
        invariant
            t <= n,
            n == alloc.len(),
            not_finished@.finite(),
            forall|u: usize|
                #[trigger] not_finished@.contains(u) <==> u < t && holds_any(
                    matrix_view(alloc),
                    u as int,
                ),
            forall|u: int| 0 <= u < alloc.len() ==> (#[trigger] alloc@[u]).len() == avail.len(),
        decreases n - t,
    {
        let any: bool = row_holds_any(&alloc[t]);
        proof {
            let row = alloc@[t as int];
            if any {
                let s = choose|s: int| 0 <= s < row.len() && #[trigger] row[s] > 0;
                assert(held_by(matrix_view(alloc), t as int, s) > 0);
            } else {
                assert forall|s: int| !(#[trigger] held_by(matrix_view(alloc), t as int, s) > 0) by {
                    if 0 <= s < row.len() {
                        assert(row[s] == 0);
                    }
                }
                assert(!holds_any(matrix_view(alloc), t as int));
            }
        }
        if any {
            not_finished.insert(t);
        }
        t = t + 1;
    }
    proof {
        let pending = marks(not_finished@, n as nat);
        let fin = finished_mask(pending);
        assert forall|s: int| 0 <= s < work@.len() implies #[trigger] work@[s] == avail@[s]
            + released_upto(matrix_view(alloc), fin, s, matrix_view(alloc).len()) by {
            assert forall|v: int|
                0 <= v < matrix_view(alloc).len() && v < fin.len() && fin[v] implies #[trigger] held_by(
                matrix_view(alloc),
                v,
                s,
            ) == 0 by {
                assert(!not_finished@.contains(v as usize));
                assert(!holds_any(matrix_view(alloc), v));
            }
            lemma_released_zero(matrix_view(alloc), fin, s, matrix_view(alloc).len());
        }
        assert forall|blocked: Set<int>, u: int|
            #[trigger] stuck_set(avail@, matrix_view(alloc), request@, blocked)
                && #[trigger] blocked.contains(u) implies 0 <= u < pending.len() && pending[u] by {
            assert(stuck_member(avail@, matrix_view(alloc), request@, blocked, u));
            assert(not_finished@.contains(u as usize));
        }
        assert forall|u: int| 0 <= u < pending.len() && #[trigger] pending[u] implies holds_any(
            matrix_view(alloc),
            u,
        ) by {
            assert(not_finished@.contains(u as usize));
        }
    }
    let mut progress: bool = true;
    while progress
        invariant
            n == alloc.len(),
            m == avail.len(),
            not_finished@.finite(),
            forall|u: usize| #[trigger] not_finished@.contains(u) ==> u < n,
            matrix_ok(avail@, matrix_view(alloc), request@),
            check_inv(
                avail@,
                matrix_view(alloc),
                request@,
                work@,
                marks(not_finished@, n as nat),
            ),
            !progress ==> forall|u: usize|
                #[trigger] not_finished@.contains(u) ==> refused(work@, request@, u as int),
        decreases not_finished@.len(), if progress { 1nat } else { 0nat },
    {
        progress = false;
        let ghost left0 = not_finished@;
        let ghost work0 = work@;
        let mut t: usize = 0;
        while t < n
            invariant
                t <= n,
                n == alloc.len(),
                m == avail.len(),
                not_finished@.finite(),
                left0.finite(),
                forall|u: usize| #[trigger] not_finished@.contains(u) ==> u < n,
                matrix_ok(avail@, matrix_view(alloc), request@),
                check_inv(
                    avail@,
                    matrix_view(alloc),
                    request@,
                    work@,
                    marks(not_finished@, n as nat),
                ),
                !progress ==> not_finished@ == left0 && work@ == work0,
                !progress ==> forall|u: usize|
                    u < t && #[trigger] not_finished@.contains(u) ==> refused(
                        work@,
                        request@,
                        u as int,
                    ),
                not_finished@.len() <= left0.len(),
                progress ==> not_finished@.len() < left0.len(),
            decreases n - t,
        {
            if not_finished.contains(&t) {
                let is_refused: bool = match request[t] {
                    Some(s) => s < m && work[s] == 0,
                    None => false,
                };
                assert(is_refused == refused(work@, request@, t as int));
                if !is_refused {
                    let ghost pending1 = marks(not_finished@, n as nat);
                    let ghost work1 = work@;
                    proof {
                        assert(pending1[t as int]);
                        lemma_finish_keeps_stuck_sets(
                            avail@,
                            matrix_view(alloc),
                            request@,
                            work@,
                            pending1,
                            t as int,
                        );
                    }
                    progress = true;
                    not_finished.remove(&t);
                    let ghost pending2 = marks(not_finished@, n as nat);
                    let ghost fin1 = finished_mask(pending1);
                    let ghost fin2 = finished_mask(pending2);
                    proof {
                        assert(pending2 =~= pending1.update(t as int, false));
                        assert(fin2 =~= fin1.update(t as int, true));
                    }
                    let mut s: usize = 0;
                    while s < m
                        invariant
                            s <= m,
                            t < n,
                            n == alloc.len(),
                            m == avail.len(),
                            work@.len() == m,
                            matrix_ok(avail@, matrix_view(alloc), request@),
                            fin2 == fin1.update(t as int, true),
                            fin1.len() == n,
                            !fin1[t as int],
                            forall|j: int|
                                0 <= j < s ==> #[trigger] work@[j] == avail@[j] + released_upto(
                                    matrix_view(alloc),
                                    fin2,
                                    j,
                                    matrix_view(alloc).len(),
                                ),
                            forall|j: int|
                                s <= j < m ==> #[trigger] work@[j] == avail@[j] + released_upto(
                                    matrix_view(alloc),
                                    fin1,
                                    j,
                                    matrix_view(alloc).len(),
                                ),
                        decreases m - s,
                    {
                        proof {
                            lemma_released_mark(
                                matrix_view(alloc),
                                fin1,
                                t as int,
                                s as int,
                                matrix_view(alloc).len(),
                            );
                            lemma_released_bounded(
                                matrix_view(alloc),
                                fin2,
                                s as int,
                                matrix_view(alloc).len(),
                            );
                            assert(held_by(matrix_view(alloc), t as int, s as int)
                                == alloc@[t as int][s as int]);
                            assert(avail@[s as int] + held_total(matrix_view(alloc), s as int)
                                <= usize::MAX);
                        }
                        work[s] = work[s] + alloc[t][s];
                        s = s + 1;
                    }
                    proof {
                        assert forall|u: int|
                            0 <= u < pending2.len() && #[trigger] pending2[u] implies holds_any(
                            matrix_view(alloc),
                            u,
                        ) by {
                            assert(pending1[u]);
                        }
                    }
                }
            }
            t = t + 1;
        }
    }
    let stuck: bool = !not_finished.is_empty();
    proof {
        let pending = marks(not_finished@, n as nat);
        if stuck {
            let blocked = Set::new(|u: int| 0 <= u < n && pending[u]);
            let fin = finished_mask(pending);
            if forall|x: usize| !not_finished@.contains(x) {
                assert(not_finished@ =~= Set::<usize>::empty());
            }
            let w = choose|x: usize| not_finished@.contains(x);
            assert(pending[w as int]);
            assert(blocked.contains(w as int));
            assert forall|u: int| #[trigger] blocked.contains(u) implies stuck_member(
                avail@,
                matrix_view(alloc),
                request@,
                blocked,
                u,
            ) by {
                assert(not_finished@.contains(u as usize));
                assert(refused(work@, request@, u));
                let s = request@[u]->0 as int;
                lemma_released_zero(matrix_view(alloc), fin, s, matrix_view(alloc).len());
                assert forall|v: int|
                    0 <= v < matrix_view(alloc).len() && !blocked.contains(
                        v,
                    ) implies #[trigger] held_by(matrix_view(alloc), v, s) == 0 by {
                    assert(fin[v]);
                }
            }
            assert(stuck_set(avail@, matrix_view(alloc), request@, blocked));
        } else {
            assert forall|blocked: Set<int>|
                !stuck_set(avail@, matrix_view(alloc), request@, blocked) by {
                if stuck_set(avail@, matrix_view(alloc), request@, blocked) {
                    let u = choose|u: int| blocked.contains(u);
                    assert(pending[u]);
                    assert(not_finished@.contains(u as usize));
                }
            }
        }
    }
    stuck
}

} // verus!
