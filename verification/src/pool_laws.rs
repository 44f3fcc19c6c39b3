//! What executors and memory pools do with what is given to them.

use crate::buffer::{
    axis_reach, elements, extent_of, first_fit, offset_of, total_size, without, BufferAllocation,
    BufferDescriptor, BufferPoolView, Extent, BUF_FLAG_READONLY, DEVICE_CPU,
};
use crate::executor::{
    deadline_after, due, run_nodes_of, DelayedTask, DelegatingView, ExecutorState, PoolTask,
    PoolView, QueuedTask, StatsView, TakeStep,
};
use vstd::prelude::*;

verus! {

// ------------------------------------------------------------------ worker threads

proof fn lemma_due_count(delayed: Seq<DelayedTask>, now: u64, n: nat)
    requires
        n <= delayed.len(),
        forall|i: int| 0 <= i < n ==> (#[trigger] delayed[i]).deadline <= now,
        n < delayed.len() ==> delayed[n as int].deadline > now,
    ensures
        due(delayed, now) == n,
    decreases delayed.len(),
{
    if n > 0 {
        assert(delayed[0].deadline <= now);
        let rest = delayed.drop_first();
        assert forall|i: int| 0 <= i < n - 1 implies (#[trigger] rest[i]).deadline <= now by {
            assert(rest[i] == delayed[i + 1]);
        }
        if n - 1 < rest.len() {
            assert(rest[n - 1] == delayed[n as int]);
        }
        lemma_due_count(rest, now, (n - 1) as nat);
    }
}

/// The tasks for later that are due come in line behind those that wait, in
/// their order and as of now; those that are not due stay for later.
pub proof fn due_tasks_come_in_line(p: PoolView, now: u64, n: nat, i: int)
    requires
        n <= p.delayed.len(),
        forall|i: int| 0 <= i < n ==> (#[trigger] p.delayed[i]).deadline <= now,
        n < p.delayed.len() ==> p.delayed[n as int].deadline > now,
    ensures
        ({
            let after = p.woken(now);
            &&& after.ready.len() == p.ready.len() + n
            &&& 0 <= i < p.ready.len() ==> after.ready[i] == p.ready[i]
            &&& 0 <= i < n ==> after.ready[p.ready.len() + i] == (QueuedTask {
                enqueued_at: now,
                task: p.delayed[i].task,
            })
            &&& after.delayed.len() == p.delayed.len() - n
            &&& 0 <= i < p.delayed.len() - n ==> after.delayed[i] == p.delayed[n + i]
            &&& after.stopped == p.stopped
        }),
{
    lemma_due_count(p.delayed, now, n);
}

/// A worker thread with nothing to do sleeps until the first task for later is
/// due, and ends if the pool was shut down.
pub proof fn workers_sleep_until_something_is_due(p: PoolView, now: u64)
    requires
        p.ready.len() == 0,
        p.delayed.len() > 0 ==> p.delayed[0].deadline > now,
    ensures
        p.stopped ==> p.taken(now).1 == TakeStep::Stop,
        !p.stopped && p.delayed.len() == 0 ==> p.taken(now).1 == TakeStep::Wait(None),
        !p.stopped && p.delayed.len() > 0 ==> {
            &&& p.taken(now).1 matches TakeStep::Wait(Some(us))
            &&& now + us == p.delayed[0].deadline
        },
        p.taken(now).0.delayed == p.delayed,
{
    lemma_due_count(p.delayed, now, 0);
    assert(p.woken(now).ready =~= p.ready);
    assert(p.woken(now).delayed =~= p.delayed);
}

/// A wake-up without a delay comes in line at once. One with a delay is entered
/// for the time when the delay is over, and is in line neither now nor at any
/// earlier time.
pub proof fn wake_ups_keep_their_time(
    p: PoolView,
    node: usize,
    generation: u64,
    delay_us: u64,
    now: u64,
)
    requires
        !p.stopped,
        now + delay_us <= u64::MAX,
    ensures
        ({
            let task = PoolTask::WakeSource(node, generation);
            let after = p.wake_submitted(node, generation, delay_us, now);
            &&& delay_us == 0 ==> after.ready == p.ready.push(
                QueuedTask { enqueued_at: now, task },
            ) && after.delayed == p.delayed
            &&& delay_us > 0 ==> after.ready == p.ready && after.delayed.len() == p.delayed.len()
                + 1 && after.delayed.contains(
                DelayedTask { deadline: (now + delay_us) as u64, task },
            )
        }),
{
    if delay_us > 0 {
        let task = PoolTask::WakeSource(node, generation);
        let entry = DelayedTask { deadline: (now + delay_us) as u64, task };
        let after = p.wake_submitted(node, generation, delay_us, now);
        let at = due(p.delayed, entry.deadline) as int;
        lemma_due_within(p.delayed, entry.deadline);
        assert(after.delayed[at] == entry);
    }
}

proof fn lemma_due_within(delayed: Seq<DelayedTask>, now: u64)
    ensures
        due(delayed, now) <= delayed.len(),
    decreases delayed.len(),
{
    if delayed.len() > 0 {
        lemma_due_within(delayed.drop_first(), now);
    }
}

/// A delay that reaches beyond the end of time is cut, but not into the past.
pub proof fn deadlines_lie_ahead(now: u64, delay: u64)
    ensures
        now <= deadline_after(now, delay) <= now + delay,
        now + delay <= u64::MAX ==> deadline_after(now, delay) == now + delay,
    decreases delay,
{
    if now + delay > u64::MAX {
        deadlines_lie_ahead(now, delay / 2);
    }
}

/// A pool that was shut down takes nothing more.
pub proof fn shut_pools_take_nothing(
    p: PoolView,
    node: usize,
    generation: u64,
    delay_us: u64,
    now: u64,
)
    requires
        p.stopped,
    ensures
        p.submitted(node, now) == p,
        p.wake_submitted(node, generation, delay_us, now) == p,
        ExecutorState::Pool(p).submitted(node, now) == (ExecutorState::Pool(p), false),
        ExecutorState::Pool(p).wake_submitted(node, generation, delay_us, now) == (
            ExecutorState::Pool(p),
            false,
        ),
{
}

/// The nodes to be run among some tasks are those of the run tasks, in order.
pub proof fn run_tasks_are_picked_in_order(a: Seq<QueuedTask>, b: Seq<QueuedTask>)
    ensures
        run_nodes_of(a + b) == run_nodes_of(a) + run_nodes_of(b),
        b.len() == 1 ==> run_nodes_of(b) == match b[0].task {
            PoolTask::Run(n) => seq![n],
            PoolTask::WakeSource(_, _) => Seq::empty(),
        },
    decreases b.len(),
{
    if b.len() == 0 {
        assert(a + b =~= a);
        assert(run_nodes_of(b) =~= Seq::empty());
        assert(run_nodes_of(a) + Seq::<usize>::empty() =~= run_nodes_of(a));
    } else {
        let front = b.drop_last();
        run_tasks_are_picked_in_order(a, front);
        assert((a + b).drop_last() =~= a + front);
        assert((a + b).last() == b.last());
        if b.len() == 1 {
            assert(front =~= Seq::empty());
            assert(run_nodes_of(front) =~= Seq::empty());
        }
        match b.last().task {
            PoolTask::Run(n) => {
                assert((run_nodes_of(a) + run_nodes_of(front)).push(n) =~= run_nodes_of(a)
                    + run_nodes_of(front).push(n));
                if b.len() == 1 {
                    assert(run_nodes_of(front).push(n) =~= seq![n]);
                }
            },
            PoolTask::WakeSource(_, _) => {},
        }
    }
}

// ------------------------------------------------------------------- statistics

/// What waits in a line that was empty waits since then; and the time that is
/// shown goes on while more comes and while something is left, until the line
/// is empty again.
pub proof fn waiting_times_are_shown(s: StatsView, then: u64, later: u64, now: u64)
    requires
        s.full,
        s.queued == 0,
        then < u64::MAX,
        then <= now,
    ensures
        s.enqueued(then).shown(now).queued_for_us == now - then,
        s.enqueued(then).enqueued(later).shown(now).queued_for_us == now - then,
        s.enqueued(then).enqueued(later).started(None).shown(now).queued_for_us == now - then,
        s.enqueued(then).started(None).shown(now).queued_for_us == 0,
        s.enqueued(then).dropped(1).shown(now).queued_for_us == 0,
{
}

/// The time that a node waited is added to that of the others, and so is the
/// time that it ran, as long as the sums fit.
pub proof fn times_are_added_up(d: DelegatingView, now: u64, execution: u64)
    requires
        d.queue.len() > 0,
        d.queue[0].enqueued_at <= now,
        d.stats.full,
        d.stats.wait_us + (now - d.queue[0].enqueued_at) <= u64::MAX,
        d.stats.execution_us + execution <= u64::MAX,
    ensures
        d.taken(now).0.stats.wait_us == d.stats.wait_us + (now - d.queue[0].enqueued_at),
        d.taken(now).0.stats.execution_us == d.stats.execution_us,
        d.completed(execution).stats.execution_us == d.stats.execution_us + execution,
        d.completed(execution).stats.wait_us == d.stats.wait_us,
{
}

/// The time that a task of a pool waited is added to that of the others.
pub proof fn pool_times_are_added_up(p: PoolView, now: u64, execution: u64)
    requires
        p.ready.len() > 0,
        p.ready[0].enqueued_at <= now,
        p.delayed.len() > 0 ==> p.delayed[0].deadline > now,
        p.stats.full,
        p.stats.wait_us + (now - p.ready[0].enqueued_at) <= u64::MAX,
        p.stats.execution_us + execution <= u64::MAX,
    ensures
        p.taken(now).0.stats.wait_us == p.stats.wait_us + (now - p.ready[0].enqueued_at),
        p.taken(now).0.ready == p.ready.drop_first(),
        p.completed(execution).stats.execution_us == p.stats.execution_us + execution,
{
    lemma_due_count(p.delayed, now, 0);
    assert(p.woken(now).ready =~= p.ready);
}

/// What is shown of an executor is what was counted.
pub proof fn what_was_counted_is_shown(s: StatsView, now: u64)
    ensures
        s.shown(now).queued == s.queued,
        s.shown(now).running == s.running,
        s.shown(now).peak_queued == s.peak,
        s.shown(now).completed == s.completed,
        s.shown(now).total_wait_us == s.wait_us,
        s.shown(now).total_execution_us == s.execution_us,
        !s.full ==> s.shown(now).queued_for_us == 0,
{
}

/// A task that is put in line, started and completed is counted at each of the
/// three, and the peak is what was ever in line at once.
pub proof fn tasks_are_counted_on_their_way(s: StatsView, now: u64, us: u64)
    requires
        s.full,
        s.queued < usize::MAX,
        s.running < usize::MAX,
        s.completed < u64::MAX,
    ensures
        s.enqueued(now).queued == s.queued + 1,
        s.enqueued(now).peak >= s.queued + 1 && s.enqueued(now).peak >= s.peak,
        s.enqueued(now).peak == s.peak || s.enqueued(now).peak == s.queued + 1,
        s.enqueued(now).started(Some(us)).queued == s.queued,
        s.enqueued(now).started(Some(us)).running == s.running + 1,
        s.enqueued(now).started(Some(us)).finished(Some(us)).running == s.running,
        s.enqueued(now).started(Some(us)).finished(Some(us)).completed == s.completed + 1,
{
}

/// For a new run nothing waits for the host thread, nothing is for later and
/// nothing is counted, but tasks in line stay there.
pub proof fn new_runs_begin_at_zero(e: ExecutorState)
    ensures
        e.renewed().stats() == StatsView::blank(e.stats().full),
        e.renewed().name() == e.name(),
        e.renewed() matches ExecutorState::Pool(p) ==> p.delayed.len() == 0 && p.ready
            == e->Pool_0.ready,
        e.renewed() matches ExecutorState::Delegating(d) ==> d.queue.len() == 0,
        e.stats().full <==> e.renewed().stats().full,
{
}

// ------------------------------------------------------------------------ memory

/// The number of the element with the given coordinates, the last dimension
/// running fastest.
pub open spec fn element_number(dims: Seq<i64>, at: Seq<int>, k: nat) -> int
    decreases k,
{
    if k == 0 {
        0
    } else {
        element_number(dims, at, (k - 1) as nat) * dims[k - 1] + at[k - 1]
    }
}

/// What the coordinates and the strides come to, dimension by dimension.
pub open spec fn stride_sum(strides: Seq<i64>, at: Seq<int>, k: nat) -> int
    decreases k,
{
    if k == 0 {
        0
    } else {
        stride_sum(strides, at, (k - 1) as nat) + at[k - 1] * strides[k - 1]
    }
}

/// The element with some coordinates lies where its coordinates, each times the
/// stride of its dimension, lead.
pub proof fn elements_lie_at_their_coordinates(
    dims: Seq<i64>,
    strides: Seq<i64>,
    at: Seq<int>,
    k: nat,
)
    requires
        k <= dims.len(),
        k <= strides.len(),
        k <= at.len(),
        forall|i: int| 0 <= i < k ==> 0 <= (#[trigger] at[i]) < dims[i],
    ensures
        0 <= element_number(dims, at, k) < elements(dims, k),
        offset_of(dims, strides, k, element_number(dims, at, k)) == stride_sum(strides, at, k),
    decreases k,
{
    if k > 0 {
        elements_lie_at_their_coordinates(dims, strides, at, (k - 1) as nat);
        let dim = dims[k - 1] as int;
        let c = at[k - 1];
        let rest = element_number(dims, at, (k - 1) as nat);
        let all = elements(dims, (k - 1) as nat);
        assert(0 <= at[k - 1] < dims[k - 1]);
        let e = rest * dim + c;
        assert(e / dim == rest && e % dim == c) by (nonlinear_arith)
            requires
                e == rest * dim + c,
                0 <= c < dim,
        ;
        assert(0 <= e < all * dim) by (nonlinear_arith)
            requires
                e == rest * dim + c,
                0 <= c < dim,
                0 <= rest < all,
        ;
    }
}

/// A described piece of memory has as many elements as its dimensions multiply
/// to, and its extent is tight: some element lies at the lower end and some at
/// the upper end of it.
pub proof fn extents_are_tight(dims: Seq<i64>, strides: Seq<i64>, k: nat) -> (r: (Seq<int>, Seq<int>))
    requires
        k <= dims.len(),
        k <= strides.len(),
        extent_of(dims, strides, k) is Ok,
        forall|i: int| 0 <= i < k ==> (#[trigger] dims[i]) > 0,
    ensures
        ({
            let x = extent_of(dims, strides, k)->Ok_0;
            let (a, b) = (element_number(dims, r.0, k), element_number(dims, r.1, k));
            &&& x.count == elements(dims, k)
            &&& 0 <= a < x.count && offset_of(dims, strides, k, a) == x.low
            &&& 0 <= b < x.count && offset_of(dims, strides, k, b) == x.high
        }),
{
    let low = Seq::new(
        k,
        |i: int|
            if (dims[i] - 1) * strides[i] < 0 {
                dims[i] - 1
            } else {
                0
            },
    );
    let high = Seq::new(
        k,
        |i: int|
            if (dims[i] - 1) * strides[i] < 0 {
                0
            } else {
                dims[i] - 1
            },
    );
    assert forall|i: int| 0 <= i < k implies 0 <= (#[trigger] low[i]) < dims[i] by {
        assert(dims[i] > 0);
    }
    assert forall|i: int| 0 <= i < k implies 0 <= (#[trigger] high[i]) < dims[i] by {
        assert(dims[i] > 0);
    }
    elements_lie_at_their_coordinates(dims, strides, low, k);
    elements_lie_at_their_coordinates(dims, strides, high, k);
    lemma_corners(dims, strides, low, high, k);
    (low, high)
}

proof fn lemma_corners(
    dims: Seq<i64>,
    strides: Seq<i64>,
    low: Seq<int>,
    high: Seq<int>,
    k: nat,
)
    requires
        k <= dims.len(),
        k <= strides.len(),
        k <= low.len(),
        k <= high.len(),
        extent_of(dims, strides, k) is Ok,
        forall|i: int| 0 <= i < k ==> (#[trigger] dims[i]) > 0,
        forall|i: int|
            0 <= i < k ==> (#[trigger] low[i]) == if (dims[i] - 1) * strides[i] < 0 {
                dims[i] - 1
            } else {
                0
            },
        forall|i: int|
            0 <= i < k ==> (#[trigger] high[i]) == if (dims[i] - 1) * strides[i] < 0 {
                0
            } else {
                dims[i] - 1
            },
    ensures
        ({
            let x = extent_of(dims, strides, k)->Ok_0;
            &&& x.count == elements(dims, k)
            &&& x.low == stride_sum(strides, low, k)
            &&& x.high == stride_sum(strides, high, k)
        }),
    decreases k,
{
    if k > 0 {
        lemma_corners(dims, strides, low, high, (k - 1) as nat);
        let dim = dims[k - 1] as int;
        let stride = strides[k - 1] as int;
        assert(dims[k - 1] > 0);
        assert(axis_reach(dim, stride) == (dim - 1) * stride);
        assert(low[k - 1] == if (dims[k - 1] - 1) * strides[k - 1] < 0 {
            dims[k - 1] - 1
        } else {
            0
        });
        assert(high[k - 1] == if (dims[k - 1] - 1) * strides[k - 1] < 0 {
            0
        } else {
            dims[k - 1] - 1
        });
        assert(0 * stride == 0) by (nonlinear_arith);
    }
}

/// The fields of a description are accepted exactly if it has at least one
/// dimension and not too many, lies in the memory of the machine, has no flag
/// but that it is read only, leaves what it does not use at zero, and has a
/// type whose size is known.
pub proof fn descriptions_are_accepted(d: BufferDescriptor, element_size: usize)
    ensures
        d.field_problem(element_size) is None <==> {
            &&& 1 <= d.ndim <= d.shape@.len()
            &&& d.device == DEVICE_CPU
            &&& d.flags & !BUF_FLAG_READONLY == 0
            &&& d.reserved == (0i64, 0i64)
            &&& forall|i: int| d.ndim <= i < d.shape@.len() ==> (#[trigger] d.shape@[i]) == 0
            &&& forall|i: int| d.ndim <= i < d.strides@.len() ==> (#[trigger] d.strides@[i]) == 0
            &&& element_size > 0
        },
{
}

/// A piece of memory is accepted exactly if every byte of it has an address
/// that the machine can form, from a base that is not null.
pub proof fn extents_are_accepted(d: BufferDescriptor, x: Extent, element_size: usize)
    requires
        element_size > 0,
        x.low <= 0 <= x.high <= i128::MAX - element_size,
        x.count > 0,
    ensures
        d.range_problem(x, element_size) is None <==> {
            let last = x.high + element_size - 1;
            &&& isize::MIN <= x.low && last <= isize::MAX
            &&& d.address > 0
            &&& 0 <= d.address + x.low && d.address + last <= usize::MAX
            &&& x.count * element_size <= usize::MAX
        },
{
}

/// What a pool finds for a caller is the first piece of just the size and the
/// alignment asked for; it finds none only if there is none.
pub proof fn the_first_fit_is_found(entries: Seq<BufferAllocation>, size: usize, align: usize)
    ensures
        first_fit(entries, size, align) is None <==> forall|i: int|
            0 <= i < entries.len() ==> (#[trigger] entries[i]).size != size || entries[i].align
                != align,
        first_fit(entries, size, align) matches Some(k) ==> {
            &&& 0 <= k < entries.len()
            &&& entries[k].size == size && entries[k].align == align
            &&& forall|i: int|
                0 <= i < k ==> (#[trigger] entries[i]).size != size || entries[i].align != align
        },
    decreases entries.len(),
{
    if entries.len() > 0 {
        let front = entries.drop_last();
        the_first_fit_is_found(front, size, align);
        assert forall|i: int| 0 <= i < front.len() implies front[i] == #[trigger] entries[i] by {}
        match first_fit(front, size, align) {
            Some(k) => {
                assert(entries[k] == front[k]);
                assert forall|i: int| 0 <= i < k implies (#[trigger] entries[i]).size != size
                    || entries[i].align != align by {
                    assert(front[i].size != size || front[i].align != align);
                }
            },
            None => {
                assert forall|i: int| 0 <= i < front.len() implies (#[trigger] entries[i]).size
                    != size || entries[i].align != align by {
                    assert(front[i].size != size || front[i].align != align);
                }
                assert(entries[entries.len() - 1] == entries.last());
            },
        }
    }
}

/// Taking a piece out of a pool takes that piece and no other.
pub proof fn one_piece_is_taken(entries: Seq<BufferAllocation>, k: int)
    requires
        0 <= k < entries.len(),
    ensures
        without(entries, k).len() == entries.len() - 1,
        without(entries, k).to_multiset() == entries.to_multiset().remove(entries[k]),
{
    broadcast use vstd::seq_lib::group_to_multiset_ensures;

    let last = entries.len() - 1;
    if k == last {
        assert(without(entries, k) =~= entries.remove(last));
    } else {
        let swapped = entries.remove(last).update(k, entries.last());
        assert(without(entries, k) =~= swapped);
        vstd::seq_lib::to_multiset_update(entries.remove(last), k, entries.last());
        let fewer = entries.to_multiset().remove(entries.last());
        assert(entries.remove(last).to_multiset() =~= fewer);
        assert(swapped.to_multiset() =~= fewer.insert(entries.last()).remove(entries[k]));
        assert(entries.to_multiset().count(entries.last()) > 0) by {
            assert(entries.contains(entries[last]));
        }
        assert(fewer.insert(entries.last()) =~= entries.to_multiset());
    }
}

/// The size of a pool is that of its pieces, all together.
pub proof fn pool_sizes_are_sums(entries: Seq<BufferAllocation>)
    ensures
        total_size(entries) == entries.fold_left(
            0nat,
            |sum: nat, a: BufferAllocation| sum + a.size as nat,
        ),
    decreases entries.len(),
{
    if entries.len() > 0 {
        pool_sizes_are_sums(entries.drop_last());
    }
}

/// A pool keeps a piece exactly if it then holds no more than it may.
pub proof fn pools_keep_what_fits(p: BufferPoolView, a: BufferAllocation)
    ensures
        p.keeps(a) <==> total_size(p.entries.push(a)) <= p.max_bytes,
{
    assert(p.entries.push(a).drop_last() =~= p.entries);
}

} // verus!
