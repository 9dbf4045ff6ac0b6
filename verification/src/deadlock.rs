//! Deadlock detection by the resource-allocation safety check.
//!
//! A state is a vector of free units per resource, a matrix of units held
//! per task and resource, and a matrix of units wanted per task and
//! resource. It is safe when no set of tasks is deadlocked.

use vstd::prelude::*;

verus! {

/// The numbers of a vector as integers.
pub open spec fn vector_view(v: &Vec<usize>) -> Seq<int> {
    Seq::new(v@.len(), |j: int| v@[j] as int)
}

/// The numbers of a matrix as integers, row by row.
pub open spec fn matrix_view(m: &Vec<Vec<usize>>) -> Seq<Seq<int>> {
    Seq::new(m@.len(), |t: int| Seq::new(m@[t]@.len(), |j: int| m@[t]@[j] as int))
}

/// `m` has `rows` rows of `width` numbers each, none of them negative.
pub open spec fn is_matrix(m: Seq<Seq<int>>, rows: int, width: int) -> bool {
    &&& m.len() == rows
    &&& forall|t: int| 0 <= t < rows ==> (#[trigger] m[t]).len() == width
    &&& forall|t: int, j: int| 0 <= t < rows && 0 <= j < width ==> 0 <= #[trigger] m[t][j]
}

/// Units of resource `j` held by the tasks below `n` that `done` marks.
pub open spec fn released(allocation: Seq<Seq<int>>, done: Seq<bool>, j: int, n: int) -> int
    decreases n,
{
    if n <= 0 {
        0
    } else {
        released(allocation, done, j, n - 1) + (if done[n - 1] {
            allocation[n - 1][j]
        } else {
            0
        })
    }
}

/// Free units of resource `j` once every task that `done` marks has given
/// back what it holds.
pub open spec fn available(
    work: Seq<int>,
    allocation: Seq<Seq<int>>,
    done: Seq<bool>,
    j: int,
) -> int {
    work[j] + released(allocation, done, j, allocation.len() as int)
}

/// Task `t` can get all it wants once the tasks that `done` marks have given
/// back what they hold.
pub open spec fn can_finish(
    work: Seq<int>,
    allocation: Seq<Seq<int>>,
    request: Seq<Seq<int>>,
    done: Seq<bool>,
    t: int,
) -> bool {
    forall|j: int| 0 <= j < work.len() ==> request[t][j] <= #[trigger] available(
        work,
        allocation,
        done,
        j,
    )
}

/// The tasks that `marks` does not mark.
pub open spec fn complement(marks: Seq<bool>) -> Seq<bool> {
    Seq::new(marks.len(), |t: int| !marks[t])
}

/// The tasks that `stuck` marks are deadlocked: there is at least one, and
/// none of them can finish even after every task outside the set has given
/// back what it holds.
pub open spec fn is_deadlocked_set(
    work: Seq<int>,
    allocation: Seq<Seq<int>>,
    request: Seq<Seq<int>>,
    stuck: Seq<bool>,
) -> bool {
    &&& stuck.len() == allocation.len()
    &&& exists|t: int| 0 <= t < stuck.len() && #[trigger] stuck[t]
    &&& forall|t: int|
        0 <= t < stuck.len() && #[trigger] stuck[t] ==> !can_finish(
            work,
            allocation,
            request,
            complement(stuck),
            t,
        )
}

/// The state is safe: no set of tasks is deadlocked.
pub open spec fn is_safe_state(
    work: Seq<int>,
    allocation: Seq<Seq<int>>,
    request: Seq<Seq<int>>,
) -> bool {
    !exists|stuck: Seq<bool>| is_deadlocked_set(work, allocation, request, stuck)
}

/// Number of tasks below `n` that `done` does not mark.
pub open spec fn unfinished(done: Seq<bool>, n: int) -> int
    decreases n,
{
    if n <= 0 {
        0
    } else {
        unfinished(done, n - 1) + (if done[n - 1] {
            0int
        } else {
            1int
        })
    }
}

proof fn lemma_unfinished_bounds(done: Seq<bool>, n: int)
    requires
        0 <= n <= done.len(),
    ensures
        0 <= unfinished(done, n) <= n,
    decreases n,
{
    if n > 0 {
        lemma_unfinished_bounds(done, n - 1);
    }
}

proof fn lemma_unfinished_mark(done: Seq<bool>, t: int, n: int)
    requires
        0 <= t < done.len(),
        0 <= n <= done.len(),
        !done[t],
    ensures
        unfinished(done.update(t, true), n) == unfinished(done, n) - (if t < n {
            1int
        } else {
            0int
        }),
    decreases n,
{
    if n > 0 {
        lemma_unfinished_mark(done, t, n - 1);
    }
}

proof fn lemma_released_mark(allocation: Seq<Seq<int>>, done: Seq<bool>, t: int, j: int, n: int)
    requires
        0 <= t < done.len(),
        0 <= n <= done.len(),
        !done[t],
    ensures
        released(allocation, done.update(t, true), j, n) == released(allocation, done, j, n) + (
        if t < n {
            allocation[t][j]
        } else {
            0
        }),
    decreases n,
{
    if n > 0 {
        lemma_released_mark(allocation, done, t, j, n - 1);
    }
}

proof fn lemma_released_monotone(
    allocation: Seq<Seq<int>>,
    fewer: Seq<bool>,
    more: Seq<bool>,
    j: int,
    width: int,
    n: int,
)
    requires
        is_matrix(allocation, allocation.len() as int, width),
        0 <= j < width,
        0 <= n <= allocation.len(),
        fewer.len() == allocation.len(),
        more.len() == allocation.len(),
        forall|t: int| 0 <= t < fewer.len() && fewer[t] ==> more[t],
    ensures
        0 <= released(allocation, fewer, j, n) <= released(allocation, more, j, n),
    decreases n,
{
    if n > 0 {
        lemma_released_monotone(allocation, fewer, more, j, width, n - 1);
        assert(0 <= allocation[n - 1][j]);
    }
}

proof fn lemma_released_bound(
    allocation: Seq<Seq<int>>,
    done: Seq<bool>,
    j: int,
    width: int,
    n: int,
    bound: int,
)
    requires
        is_matrix(allocation, allocation.len() as int, width),
        0 <= j < width,
        0 <= n <= allocation.len(),
        done.len() == allocation.len(),
        forall|t: int| 0 <= t < allocation.len() ==> (#[trigger] allocation[t])[j] <= bound,
    ensures
        0 <= released(allocation, done, j, n) <= n * bound,
    decreases n,
{
    if n > 0 {
        lemma_released_bound(allocation, done, j, width, n - 1, bound);
        assert(0 <= allocation[n - 1][j] <= bound);
        assert((n - 1) * bound + bound == n * bound) by (nonlinear_arith);
    }
}

/// Every row of a matrix of machine words has this width.
pub open spec fn rows_have_width(m: &Vec<Vec<usize>>, width: int) -> bool {
    forall|t: int| 0 <= t < m@.len() ==> (#[trigger] m@[t])@.len() == width
}

proof fn lemma_matrix_view(m: &Vec<Vec<usize>>, width: int)
    requires
        rows_have_width(m, width),
    ensures
        is_matrix(matrix_view(m), m@.len() as int, width),
        forall|t: int, j: int|
            0 <= t < m@.len() && 0 <= j < width ==> #[trigger] matrix_view(m)[t][j] == m@[t]@[j],
{
    assert forall|t: int| 0 <= t < m@.len() implies (#[trigger] matrix_view(m)[t]).len()
        == width by {
        assert(m@[t]@.len() == width);
    }
}

fn row_fits(row: &Vec<usize>, free: &Vec<u128>) -> (fits: bool)
    requires
        row@.len() == free@.len(),
    ensures
        fits <==> forall|j: int| 0 <= j < free@.len() ==> row@[j] <= #[trigger] free@[j],
{
    let n: usize = free.len();
    let mut j: usize = 0;
    while j < n
        invariant
            n == free@.len(),
            row@.len() == n,
            j <= n,
            forall|k: int| 0 <= k < j ==> row@[k] <= #[trigger] free@[k],
        decreases n - j,
    {
        if row[j] as u128 > free[j] {
            return false;
        }
        j = j + 1;
    }
    true
}

/// Runs the safety check on a state.
///
/// `work[j]` is the number of free units of resource `j`, `allocation[t][j]`
/// the units of `j` that task `t` holds and `request[t][j]` the units of `j`
/// that task `t` wants. Starting with no task finished, the check looks again
/// and again for an unfinished task whose whole request fits the free units,
/// marks it finished and adds what it holds to the free units, until a pass
/// over the tasks finds none. The state is safe when every task got
/// finished.
pub fn is_safe(work: &Vec<usize>, allocation: &Vec<Vec<usize>>, request: &Vec<Vec<usize>>) -> (safe:
    bool)
    requires
        allocation@.len() == request@.len(),
        rows_have_width(allocation, work@.len() as int),
        rows_have_width(request, work@.len() as int),
    ensures
        safe == is_safe_state(vector_view(work), matrix_view(allocation), matrix_view(request)),
{
    let tasks: usize = allocation.len();
    let resources: usize = work.len();
    let ghost w = vector_view(work);
    let ghost a = matrix_view(allocation);
    let ghost r = matrix_view(request);
    proof {
        lemma_matrix_view(allocation, resources as int);
        lemma_matrix_view(request, resources as int);
    }
    let mut free: Vec<u128> = Vec::new();
    let mut j: usize = 0;
    while j < resources
        invariant
            resources == work@.len(),
            j <= resources,
            free@.len() == j,
            forall|k: int| 0 <= k < j ==> #[trigger] free@[k] == work@[k],
        decreases resources - j,
    {
        free.push(work[j] as u128);
        j = j + 1;
    }
    let mut finish: Vec<bool> = Vec::new();
    let mut t: usize = 0;
    while t < tasks
        invariant
            t <= tasks,
            finish@.len() == t,
            forall|k: int| 0 <= k < t ==> !#[trigger] finish@[k],
        decreases tasks - t,
    {
        finish.push(false);
        t = t + 1;
    }
    proof {
        assert forall|k: int| 0 <= k < resources implies #[trigger] free@[k] == available(
            w,
            a,
            finish@,
            k,
        ) by {
            lemma_released_none(a, finish@, k, tasks as int);
        }
        lemma_unfinished_bounds(finish@, tasks as int);
    }
    let mut change: bool = true;
    while change
        invariant
            tasks == allocation@.len(),
            tasks == request@.len(),
            resources == work@.len(),
            rows_have_width(allocation, resources as int),
            rows_have_width(request, resources as int),
            w == vector_view(work),
            a == matrix_view(allocation),
            r == matrix_view(request),
            is_matrix(a, tasks as int, resources as int),
            is_matrix(r, tasks as int, resources as int),
            forall|t: int, j: int|
                0 <= t < tasks && 0 <= j < resources ==> #[trigger] a[t][j] == allocation@[t]@[j],
            forall|t: int, j: int|
                0 <= t < tasks && 0 <= j < resources ==> #[trigger] r[t][j] == request@[t]@[j],
            finish@.len() == tasks,
            free@.len() == resources,
            forall|k: int| 0 <= k < resources ==> #[trigger] free@[k] == available(w, a, finish@, k),
            forall|stuck: Seq<bool>| #[trigger]
                is_deadlocked_set(w, a, r, stuck) ==> forall|t: int|
                    0 <= t < tasks && finish@[t] ==> !stuck[t],
            !change ==> forall|t: int|
                0 <= t < tasks ==> finish@[t] || !can_finish(w, a, r, finish@, t),
            0 <= unfinished(finish@, tasks as int),
        decreases unfinished(finish@, tasks as int), (if change { 1int } else { 0int }),
    {
        change = false;
        let ghost start = finish@;
        let mut tid: usize = 0;
        while tid < tasks
            invariant
                tasks == allocation@.len(),
                tasks == request@.len(),
                resources == work@.len(),
                rows_have_width(allocation, resources as int),
                rows_have_width(request, resources as int),
                w == vector_view(work),
                a == matrix_view(allocation),
                r == matrix_view(request),
                is_matrix(a, tasks as int, resources as int),
                is_matrix(r, tasks as int, resources as int),
                forall|t: int, j: int|
                    0 <= t < tasks && 0 <= j < resources ==> #[trigger] a[t][j]
                        == allocation@[t]@[j],
                forall|t: int, j: int|
                    0 <= t < tasks && 0 <= j < resources ==> #[trigger] r[t][j] == request@[t]@[j],
                tid <= tasks,
                finish@.len() == tasks,
                free@.len() == resources,
                forall|k: int|
                    0 <= k < resources ==> #[trigger] free@[k] == available(w, a, finish@, k),
                forall|stuck: Seq<bool>| #[trigger]
                    is_deadlocked_set(w, a, r, stuck) ==> forall|t: int|
                        0 <= t < tasks && finish@[t] ==> !stuck[t],
                !change ==> finish@ == start,
                !change ==> forall|t: int|
                    0 <= t < tid ==> finish@[t] || !can_finish(w, a, r, finish@, t),
                change ==> unfinished(finish@, tasks as int) < unfinished(start, tasks as int),
                0 <= unfinished(finish@, tasks as int),
            decreases tasks - tid,
        {
            let enough: bool = row_fits(&request[tid], &free);
            proof {
                assert(enough == can_finish(w, a, r, finish@, tid as int)) by {
                    if enough {
                        assert forall|j: int| 0 <= j < w.len() implies r[tid as int][j]
                            <= #[trigger] available(w, a, finish@, j) by {
                            assert(request@[tid as int]@[j] <= free@[j]);
                        }
                    } else {
                        let j = choose|j: int|
                            0 <= j < free@.len() && !(request@[tid as int]@[j] <= #[trigger] free@[j]);
                        assert(r[tid as int][j] > available(w, a, finish@, j));
                    }
                }
            }
            if !finish[tid] && enough {
                let ghost before = finish@;
                proof {
                    assert forall|stuck: Seq<bool>| #[trigger]
                        is_deadlocked_set(w, a, r, stuck) implies !stuck[tid as int] by {
                        if stuck[tid as int] {
                            let rest = complement(stuck);
                            assert forall|j: int| 0 <= j < w.len() implies r[tid as int][j]
                                <= #[trigger] available(w, a, rest, j) by {
                                lemma_released_monotone(
                                    a,
                                    before,
                                    rest,
                                    j,
                                    resources as int,
                                    tasks as int,
                                );
                                assert(r[tid as int][j] <= available(w, a, before, j));
                            }
                            assert(can_finish(w, a, r, rest, tid as int));
                            assert(false);
                        }
                    }
                }
                finish.set(tid, true);
                change = true;
                proof {
                    assert(finish@ == before.update(tid as int, true));
                    lemma_unfinished_mark(before, tid as int, tasks as int);
                    lemma_unfinished_bounds(finish@, tasks as int);
                }
                let mut k: usize = 0;
                while k < resources
                    invariant
                        tasks == allocation@.len(),
                        resources == work@.len(),
                        rows_have_width(allocation, resources as int),
                        w == vector_view(work),
                        a == matrix_view(allocation),
                        is_matrix(a, tasks as int, resources as int),
                        forall|t: int, j: int|
                            0 <= t < tasks && 0 <= j < resources ==> #[trigger] a[t][j]
                                == allocation@[t]@[j],
                        tid < tasks,
                        k <= resources,
                        before.len() == tasks,
                        !before[tid as int],
                        finish@ == before.update(tid as int, true),
                        free@.len() == resources,
                        forall|i: int|
                            0 <= i < k ==> #[trigger] free@[i] == available(w, a, finish@, i),
                        forall|i: int|
                            k <= i < resources ==> #[trigger] free@[i] == available(
                                w,
                                a,
                                before,
                                i,
                            ),
                    decreases resources - k,
                {
                    proof {
                        lemma_released_mark(a, before, tid as int, k as int, tasks as int);
                        assert(forall|t: int|
                            0 <= t < tasks ==> (#[trigger] a[t])[k as int] <= usize::MAX) by {
                            assert forall|t: int| 0 <= t < tasks implies (#[trigger] a[t])[k as int]
                                <= usize::MAX by {
                                assert(a[t][k as int] == allocation@[t]@[k as int]);
                            }
                        }
                        lemma_released_bound(
                            a,
                            finish@,
                            k as int,
                            resources as int,
                            tasks as int,
                            usize::MAX as int,
                        );
                        assert(tasks * usize::MAX <= 0xffff_ffff_ffff_ffff * 0xffff_ffff_ffff_ffff)
                            by (nonlinear_arith)
                            requires
                                0 <= tasks <= 0xffff_ffff_ffff_ffff,
                                0 <= usize::MAX <= 0xffff_ffff_ffff_ffff,
                        ;
                        assert(available(w, a, finish@, k as int) == free@[k as int]
                            + allocation@[tid as int]@[k as int]);
                    }
                    let sum: u128 = free[k] + allocation[tid][k] as u128;
                    free.set(k, sum);
                    k = k + 1;
                }
            }
            tid = tid + 1;
        }
    }
    let mut t: usize = 0;
    while t < tasks
        invariant
            t <= tasks,
            tasks == a.len(),
            w == vector_view(work),
            a == matrix_view(allocation),
            r == matrix_view(request),
            finish@.len() == tasks,
            forall|k: int| 0 <= k < t ==> finish@[k],
            forall|u: int| 0 <= u < tasks ==> finish@[u] || !can_finish(w, a, r, finish@, u),
            forall|stuck: Seq<bool>| #[trigger]
                is_deadlocked_set(w, a, r, stuck) ==> forall|u: int|
                    0 <= u < tasks && finish@[u] ==> !stuck[u],
        decreases tasks - t,
    {
        if !finish[t] {
            proof {
                let stuck = complement(finish@);
                assert(complement(stuck) =~= finish@);
                assert(stuck[t as int]);
                assert forall|u: int| 0 <= u < stuck.len() && #[trigger] stuck[u] implies !can_finish(
                    w,
                    a,
                    r,
                    complement(stuck),
                    u,
                ) by {
                    assert(!finish@[u]);
                }
                assert(is_deadlocked_set(w, a, r, stuck));
            }
            return false;
        }
        t = t + 1;
    }
    proof {
        assert forall|stuck: Seq<bool>| !is_deadlocked_set(w, a, r, stuck) by {
            if is_deadlocked_set(w, a, r, stuck) {
                let u = choose|u: int| 0 <= u < stuck.len() && #[trigger] stuck[u];
                assert(finish@[u]);
                assert(false);
            }
        }
    }
    true
}

proof fn lemma_released_none(allocation: Seq<Seq<int>>, done: Seq<bool>, j: int, n: int)
    requires
        0 <= n <= done.len(),
        forall|t: int| 0 <= t < done.len() ==> !#[trigger] done[t],
    ensures
        released(allocation, done, j, n) == 0,
    decreases n,
{
    if n > 0 {
        lemma_released_none(allocation, done, j, n - 1);
    }
}

/// The tasks that come before position `k` of `order`.
pub open spec fn finished_before(order: Seq<int>, k: int, tasks: int) -> Seq<bool> {
    Seq::new(tasks as nat, |t: int| exists|i: int| 0 <= i < k && #[trigger] order[i] == t)
}

/// `order` is a safe sequence: it names every task once, and each task can
/// finish once the tasks before it have given back what they hold.
pub open spec fn is_safe_sequence(
    work: Seq<int>,
    allocation: Seq<Seq<int>>,
    request: Seq<Seq<int>>,
    order: Seq<int>,
) -> bool {
    &&& order.len() == allocation.len()
    &&& forall|i: int| 0 <= i < order.len() ==> 0 <= #[trigger] order[i] < allocation.len()
    &&& forall|i: int, j: int|
        0 <= i < j < order.len() ==> #[trigger] order[i] != #[trigger] order[j]
    &&& forall|k: int|
        0 <= k < order.len() ==> can_finish(
            work,
            allocation,
            request,
            finished_before(order, k, allocation.len() as int),
            #[trigger] order[k],
        )
}

/// A sequence of `n` different task numbers below `n` names every task.
proof fn lemma_order_covers(order: Seq<int>, n: int, t: int)
    requires
        order.len() == n,
        forall|i: int| 0 <= i < order.len() ==> 0 <= #[trigger] order[i] < n,
        forall|i: int, j: int|
            0 <= i < j < order.len() ==> #[trigger] order[i] != #[trigger] order[j],
        0 <= t < n,
    ensures
        exists|i: int| 0 <= i < n && #[trigger] order[i] == t,
{
    if !exists|i: int| 0 <= i < n && #[trigger] order[i] == t {
        let image = order.to_set();
        let below = Set::new(|x: int| 0 <= x < n);
        order.unique_seq_to_set();
        assert(order.no_duplicates());
        assert(image.len() == n);
        vstd::set_lib::lemma_int_range(0, n);
        assert(below =~= vstd::set_lib::set_int_range(0, n));
        let rest = below.remove(t);
        assert(image.subset_of(rest)) by {
            assert forall|x: int| image.contains(x) implies rest.contains(x) by {
                let i = choose|i: int| 0 <= i < order.len() && order[i] == x;
                assert(order[i] == x);
            }
        }
        vstd::set_lib::lemma_len_subset(image, rest);
        assert(false);
    }
}

/// With a safe sequence no set of tasks is deadlocked: of the tasks of such
/// a set, the one that comes first in the sequence could finish.
pub proof fn lemma_safe_sequence_is_safe(
    work: Seq<int>,
    allocation: Seq<Seq<int>>,
    request: Seq<Seq<int>>,
    order: Seq<int>,
)
    requires
        is_matrix(allocation, allocation.len() as int, work.len() as int),
        is_safe_sequence(work, allocation, request, order),
    ensures
        is_safe_state(work, allocation, request),
{
    let n = allocation.len() as int;
    assert forall|stuck: Seq<bool>| !is_deadlocked_set(work, allocation, request, stuck) by {
        if is_deadlocked_set(work, allocation, request, stuck) {
            let t = choose|t: int| 0 <= t < stuck.len() && #[trigger] stuck[t];
            lemma_order_covers(order, n, t);
            let at = choose|i: int| 0 <= i < n && #[trigger] order[i] == t;
            let k = lemma_first_stuck(order, stuck, at);
            let before = finished_before(order, k, n);
            let rest = complement(stuck);
            assert forall|j: int| 0 <= j < work.len() implies request[order[k]][j]
                <= #[trigger] available(work, allocation, rest, j) by {
                assert forall|u: int| 0 <= u < before.len() && before[u] implies rest[u] by {
                    let i = choose|i: int| 0 <= i < k && #[trigger] order[i] == u;
                    assert(!stuck[order[i]]);
                }
                lemma_released_monotone(allocation, before, rest, j, work.len() as int, n);
                assert(request[order[k]][j] <= available(work, allocation, before, j));
            }
            assert(can_finish(work, allocation, request, rest, order[k]));
            assert(stuck[order[k]]);
            assert(false);
        }
    }
}

/// The first position of `order`, up to `at`, whose task `stuck` marks.
proof fn lemma_first_stuck(order: Seq<int>, stuck: Seq<bool>, at: int) -> (k: int)
    requires
        0 <= at < order.len(),
        stuck[order[at]],
    ensures
        0 <= k <= at,
        stuck[order[k]],
        forall|i: int| 0 <= i < k ==> !stuck[#[trigger] order[i]],
    decreases at,
{
    if exists|i: int| 0 <= i < at && stuck[#[trigger] order[i]] {
        let i = choose|i: int| 0 <= i < at && stuck[#[trigger] order[i]];
        lemma_first_stuck(order, stuck, i)
    } else {
        at
    }
}

/// In a safe state a safe sequence can be built: while tasks are left, the
/// tasks that are left are not deadlocked, so one of them can finish and is
/// taken next.
pub proof fn lemma_safe_has_sequence(
    work: Seq<int>,
    allocation: Seq<Seq<int>>,
    request: Seq<Seq<int>>,
) -> (order: Seq<int>)
    requires
        is_matrix(allocation, allocation.len() as int, work.len() as int),
        is_safe_state(work, allocation, request),
    ensures
        is_safe_sequence(work, allocation, request, order),
{
    lemma_extend_sequence(work, allocation, request, Seq::empty())
}

/// `order` is the beginning of a safe sequence.
pub open spec fn is_safe_prefix(
    work: Seq<int>,
    allocation: Seq<Seq<int>>,
    request: Seq<Seq<int>>,
    order: Seq<int>,
) -> bool {
    &&& order.len() <= allocation.len()
    &&& forall|i: int| 0 <= i < order.len() ==> 0 <= #[trigger] order[i] < allocation.len()
    &&& forall|i: int, j: int|
        0 <= i < j < order.len() ==> #[trigger] order[i] != #[trigger] order[j]
    &&& forall|k: int|
        0 <= k < order.len() ==> can_finish(
            work,
            allocation,
            request,
            finished_before(order, k, allocation.len() as int),
            #[trigger] order[k],
        )
}

proof fn lemma_prefix_not_full(order: Seq<int>, n: int) -> (t: int)
    requires
        order.len() < n,
        forall|i: int| 0 <= i < order.len() ==> 0 <= #[trigger] order[i] < n,
    ensures
        0 <= t < n,
        forall|i: int| 0 <= i < order.len() ==> #[trigger] order[i] != t,
{
    let image = order.to_set();
    let below = vstd::set_lib::set_int_range(0, n);
    vstd::set_lib::lemma_int_range(0, n);
    vstd::seq_lib::seq_to_set_is_finite(order);
    order.lemma_cardinality_of_set();
    if forall|x: int| 0 <= x < n ==> image.contains(x) {
        assert(below.subset_of(image));
        vstd::set_lib::lemma_len_subset(below, image);
        assert(false);
    }
    let t = choose|x: int| 0 <= x < n && !image.contains(x);
    assert forall|i: int| 0 <= i < order.len() implies #[trigger] order[i] != t by {
        assert(image.contains(order[i]));
    }
    t
}

proof fn lemma_extend_sequence(
    work: Seq<int>,
    allocation: Seq<Seq<int>>,
    request: Seq<Seq<int>>,
    order: Seq<int>,
) -> (full: Seq<int>)
    requires
        is_matrix(allocation, allocation.len() as int, work.len() as int),
        is_safe_state(work, allocation, request),
        is_safe_prefix(work, allocation, request, order),
    ensures
        is_safe_sequence(work, allocation, request, full),
    decreases allocation.len() - order.len(),
{
    let n = allocation.len() as int;
    if order.len() == n {
        order
    } else {
        let done = finished_before(order, order.len() as int, n);
        let stuck = complement(done);
        let free = lemma_prefix_not_full(order, n);
        assert(stuck[free]) by {
            if done[free] {
                let i = choose|i: int| 0 <= i < order.len() && #[trigger] order[i] == free;
                assert(false);
            }
        }
        assert(!is_deadlocked_set(work, allocation, request, stuck));
        assert(complement(stuck) =~= done);
        let t = choose|t: int|
            0 <= t < stuck.len() && #[trigger] stuck[t] && can_finish(
                work,
                allocation,
                request,
                complement(stuck),
                t,
            );
        let longer = order.push(t);
        assert forall|i: int, j: int| 0 <= i < j < longer.len() implies #[trigger] longer[i]
            != #[trigger] longer[j] by {
            if j == order.len() {
                assert(!done[t]);
                assert(order[i] == longer[i]);
            }
        }
        assert forall|k: int| 0 <= k < longer.len() implies can_finish(
            work,
            allocation,
            request,
            finished_before(longer, k, n),
            #[trigger] longer[k],
        ) by {
            assert(finished_before(longer, k, n) =~= finished_before(order, k, n)) by {
                assert forall|u: int| 0 <= u < n implies finished_before(longer, k, n)[u]
                    == finished_before(order, k, n)[u] by {
                    if finished_before(longer, k, n)[u] {
                        let i = choose|i: int| 0 <= i < k && #[trigger] longer[i] == u;
                        assert(order[i] == u);
                    }
                    if finished_before(order, k, n)[u] {
                        let i = choose|i: int| 0 <= i < k && #[trigger] order[i] == u;
                        assert(longer[i] == u);
                    }
                }
            }
            if k < order.len() {
                assert(longer[k] == order[k]);
            }
        }
        lemma_extend_sequence(work, allocation, request, longer)
    }
}

} // verus!
