//! Proportional fairness of the stride policy.
//!
//! A fixed set of tasks takes turns: each turn the scheduler fetches a task
//! from the ready queue and the task, having run, is added again. The lemmas
//! here follow such a queue over any number of turns.

use vstd::prelude::*;
use crate::config::{BIG_STRIDE, MAX_PASS};
use crate::task::manager::{first_min_stride, is_first_min_stride};
use crate::task::{stride_pass, TaskControlBlock};

verus! {

/// A queued task together with the stride at which it began and the number
/// of turns it has had since.
pub struct Share {
    pub task: TaskControlBlock,
    pub start: int,
    pub runs: nat,
}

/// The tasks of the shares, in order.
pub open spec fn tasks_of(shares: Seq<Share>) -> Seq<TaskControlBlock> {
    Seq::new(shares.len(), |i: int| shares[i].task)
}

/// One turn: the task that `fetch` takes leaves its place, has its stride
/// advanced and its turn counted, and joins again at the back, as `add` puts
/// it.
pub open spec fn turn(shares: Seq<Share>) -> Seq<Share> {
    if shares.len() == 0 {
        shares
    } else {
        let i = first_min_stride(tasks_of(shares));
        shares.remove(i).push(
            Share { task: shares[i].task.advanced(), start: shares[i].start, runs: shares[i].runs + 1 },
        )
    }
}

/// The queue after `n` turns.
pub open spec fn turns(shares: Seq<Share>, n: nat) -> Seq<Share>
    decreases n,
{
    if n == 0 {
        shares
    } else {
        turn(turns(shares, (n - 1) as nat))
    }
}

/// The state of a fair race after `done` turns that began with no stride
/// above `bound`: every task has a priority of at least 2, its stride is the
/// stride at which it began plus its pass for each of its turns, no task has
/// had more than `done` turns, and no stride is more than `MAX_PASS` ahead
/// of another.
pub open spec fn in_step(shares: Seq<Share>, bound: int, done: nat) -> bool {
    &&& forall|i: int| 0 <= i < shares.len() ==> (#[trigger] shares[i]).task.wf()
    &&& forall|i: int|
        0 <= i < shares.len() ==> (#[trigger] shares[i]).task.stride == shares[i].start
            + shares[i].runs * stride_pass(shares[i].task.priority)
    &&& forall|i: int| 0 <= i < shares.len() ==> 0 <= (#[trigger] shares[i]).start <= bound
    &&& forall|i: int| 0 <= i < shares.len() ==> (#[trigger] shares[i]).runs <= done
    &&& forall|i: int, j: int|
        0 <= i < shares.len() && 0 <= j < shares.len() ==> (#[trigger] shares[i]).task.stride - (
        #[trigger] shares[j]).task.stride <= MAX_PASS
}

/// A non-empty queue has a first task with the least stride.
pub proof fn lemma_first_min_stride_exists(tasks: Seq<TaskControlBlock>)
    requires
        tasks.len() > 0,
    ensures
        is_first_min_stride(tasks, first_min_stride(tasks)),
    decreases tasks.len(),
{
    if tasks.len() == 1 {
        assert(is_first_min_stride(tasks, 0));
    } else {
        let front = tasks.drop_last();
        lemma_first_min_stride_exists(front);
        let i = first_min_stride(front);
        let last = tasks.len() - 1;
        assert(forall|j: int| 0 <= j < front.len() ==> front[j] == tasks[j]);
        if tasks[last].stride < tasks[i].stride {
            assert forall|j: int| 0 <= j < last implies tasks[last].stride < (
            #[trigger] tasks[j]).stride by {
                assert(front[i].stride <= front[j].stride);
            }
            assert(is_first_min_stride(tasks, last));
        } else {
            assert forall|j: int| 0 <= j < tasks.len() implies tasks[i].stride <= (
            #[trigger] tasks[j]).stride by {
                if j < last {
                    assert(front[i].stride <= front[j].stride);
                }
            }
            assert forall|j: int| 0 <= j < i implies tasks[i].stride < (#[trigger] tasks[j]).stride by {
                assert(front[i].stride < front[j].stride);
            }
            assert(is_first_min_stride(tasks, i));
        }
    }
}

/// The pass of a well-formed task is at most `MAX_PASS` and not negative.
pub proof fn lemma_pass_bound(priority: usize)
    requires
        priority >= 2,
    ensures
        0 <= stride_pass(priority) <= MAX_PASS,
{
    assert(0 <= BIG_STRIDE as int / priority as int <= 32768) by (nonlinear_arith)
        requires
            priority >= 2,
            BIG_STRIDE == 65536,
    ;
}

/// One turn keeps a fair race in step.
pub proof fn lemma_turn_in_step(shares: Seq<Share>, bound: int, done: nat)
    requires
        in_step(shares, bound, done),
        bound + (done + 1) * MAX_PASS <= u64::MAX,
    ensures
        in_step(turn(shares), bound, done + 1),
        turn(shares).len() == shares.len(),
{
    if shares.len() > 0 {
        let tasks = tasks_of(shares);
        lemma_first_min_stride_exists(tasks);
        let i = first_min_stride(tasks);
        let old_share = shares[i];
        let pass = stride_pass(old_share.task.priority);
        lemma_pass_bound(old_share.task.priority);
        assert(old_share.runs * pass <= done * MAX_PASS) by (nonlinear_arith)
            requires
                0 <= old_share.runs <= done,
                0 <= pass <= MAX_PASS,
        ;
        assert((done + 1) * MAX_PASS == done * MAX_PASS + MAX_PASS) by (nonlinear_arith);
        assert((old_share.runs + 1) * pass == old_share.runs * pass + pass) by (nonlinear_arith);
        let new_share = Share {
            task: old_share.task.advanced(),
            start: old_share.start,
            runs: old_share.runs + 1,
        };
        assert(new_share.task.stride == old_share.task.stride + pass);
        let after = turn(shares);
        let rest = shares.remove(i);
        assert(after == rest.push(new_share));
        assert forall|k: int| 0 <= k < after.len() implies (#[trigger] after[k]).task.wf() && after[k].task.stride
            == after[k].start + after[k].runs * stride_pass(after[k].task.priority) && 0
            <= after[k].start <= bound && after[k].runs <= done + 1 by {
            if k < rest.len() {
                let m = if k < i { k } else { k + 1 };
                assert(after[k] == shares[m]);
            }
        }
        assert forall|a: int, b: int|
            0 <= a < after.len() && 0 <= b < after.len() implies (#[trigger] after[a]).task.stride - (
        #[trigger] after[b]).task.stride <= MAX_PASS by {
            let ma = if a < i { a } else { a + 1 };
            let mb = if b < i { b } else { b + 1 };
            if a < rest.len() {
                assert(after[a] == shares[ma]);
            }
            if b < rest.len() {
                assert(after[b] == shares[mb]);
                assert(tasks[i].stride <= tasks[mb].stride);
            }
            if a < rest.len() && b < rest.len() {
                assert(shares[ma].task.stride - shares[mb].task.stride <= MAX_PASS);
            } else if a < rest.len() {
                assert(tasks[i].stride <= tasks[ma].stride);
                assert(shares[ma].task.stride - shares[i].task.stride <= MAX_PASS);
            }
        }
    }
}

/// Any number of turns keeps a fair race in step.
pub proof fn lemma_turns_in_step(shares: Seq<Share>, bound: int, n: nat)
    requires
        in_step(shares, bound, 0),
        bound + n * MAX_PASS <= u64::MAX,
    ensures
        in_step(turns(shares, n), bound, n),
        turns(shares, n).len() == shares.len(),
    decreases n,
{
    if n > 0 {
        assert((n - 1) * MAX_PASS <= n * MAX_PASS) by (nonlinear_arith)
            requires
                n >= 1,
        ;
        lemma_turns_in_step(shares, bound, (n - 1) as nat);
        assert(((n - 1) as nat + 1) * MAX_PASS == n * MAX_PASS);
        lemma_turn_in_step(turns(shares, (n - 1) as nat), bound, (n - 1) as nat);
    }
}

/// Proportional fairness of the stride policy over any window of turns.
///
/// Take the queue at a moment at which no stride is more than `MAX_PASS`
/// ahead of another, as it is when the tasks began together and as every
/// turn keeps it, and let the tasks, all with priorities of at least 2, take
/// `n` turns, with `n` small enough that no stride reaches the 64-bit cap.
/// Then for any two tasks the products of the number of turns and the pass,
/// `BIG_STRIDE / priority`, differ by at most `MAX_PASS` plus the lead that
/// the second had at the start: by at most twice `MAX_PASS`, which is
/// `BIG_STRIDE`, and by at most `MAX_PASS` alone when the two began level.
/// So each task gets turns in proportion to its priority.
pub proof fn lemma_stride_fairness(shares: Seq<Share>, bound: int, n: nat, a: int, b: int)
    requires
        forall|i: int| 0 <= i < shares.len() ==> (#[trigger] shares[i]).task.wf(),
        forall|i: int|
            0 <= i < shares.len() ==> (#[trigger] shares[i]).start == shares[i].task.stride,
        forall|i: int| 0 <= i < shares.len() ==> (#[trigger] shares[i]).runs == 0,
        forall|i: int, j: int|
            0 <= i < shares.len() && 0 <= j < shares.len() ==> (#[trigger] shares[i]).task.stride
                - (#[trigger] shares[j]).task.stride <= MAX_PASS,
        forall|i: int| 0 <= i < shares.len() ==> (#[trigger] shares[i]).task.stride <= bound,
        bound + n * MAX_PASS <= u64::MAX,
        0 <= a < shares.len(),
        0 <= b < shares.len(),
    ensures
        turns(shares, n).len() == shares.len(),
        turns(shares, n)[a].runs * stride_pass(turns(shares, n)[a].task.priority) - turns(
            shares,
            n,
        )[b].runs * stride_pass(turns(shares, n)[b].task.priority) <= MAX_PASS + turns(
            shares,
            n,
        )[b].start - turns(shares, n)[a].start,
        turns(shares, n)[a].runs * stride_pass(turns(shares, n)[a].task.priority) - turns(
            shares,
            n,
        )[b].runs * stride_pass(turns(shares, n)[b].task.priority) <= 2 * MAX_PASS,
        in_step(turns(shares, n), bound, n),
{
    assert(in_step(shares, bound, 0)) by {
        assert forall|i: int| 0 <= i < shares.len() implies (#[trigger] shares[i]).task.stride
            == shares[i].start + shares[i].runs * stride_pass(shares[i].task.priority) by {
            assert(shares[i].runs == 0);
            assert(0 * stride_pass(shares[i].task.priority) == 0);
        }
    }
    lemma_turns_in_step(shares, bound, n);
    let after = turns(shares, n);
    assert(after[a].task.stride - after[b].task.stride <= MAX_PASS);
    lemma_starts_in_step(shares, n);
}

/// The strides at which the tasks of a queue began are never more than
/// `MAX_PASS` apart, whatever turns the tasks have taken since.
proof fn lemma_starts_in_step(shares: Seq<Share>, n: nat)
    requires
        forall|i: int, j: int|
            0 <= i < shares.len() && 0 <= j < shares.len() ==> (#[trigger] shares[i]).start - (
            #[trigger] shares[j]).start <= MAX_PASS,
    ensures
        turns(shares, n).len() == shares.len(),
        forall|i: int, j: int|
            0 <= i < shares.len() && 0 <= j < shares.len() ==> (#[trigger] turns(shares, n)[i]).start
                - (#[trigger] turns(shares, n)[j]).start <= MAX_PASS,
    decreases n,
{
    if n > 0 {
        lemma_starts_in_step(shares, (n - 1) as nat);
        let before = turns(shares, (n - 1) as nat);
        let after = turns(shares, n);
        if before.len() > 0 {
            let i = first_min_stride(tasks_of(before));
            lemma_first_min_stride_exists(tasks_of(before));
            let rest = before.remove(i);
            assert forall|x: int, y: int|
                0 <= x < after.len() && 0 <= y < after.len() implies (#[trigger] after[x]).start - (
            #[trigger] after[y]).start <= MAX_PASS by {
                let mx = if x < rest.len() {
                    if x < i {
                        x
                    } else {
                        x + 1
                    }
                } else {
                    i
                };
                let my = if y < rest.len() {
                    if y < i {
                        y
                    } else {
                        y + 1
                    }
                } else {
                    i
                };
                assert(after[x].start == before[mx].start);
                assert(after[y].start == before[my].start);
            }
        }
    }
}

} // verus!
