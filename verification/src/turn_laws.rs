//! Whose turn it is: who is put in line, swept and torn down, and what the
//! counters and warnings on the way say.

use crate::config::GraphView;
use crate::host_laws::lemma_ports_closed_edges;
use crate::kernel_laws::{joined_texts_stay_clean, lemma_number_is_clean, mentions_text};
use crate::lifecycle::{all_required, blank_node, built, ContractView};
use crate::packet::Packet;
use crate::run_state::{
    heads_dequeued, one_more, power_of_two, state_name, state_number, wrapped_sum, Action,
    NodeSched, Policy, PollerView, RunEdge, RunNode, RunView, State, Task,
};
use crate::runtime::{SharedView, CLOSE_CANCELLED, CLOSE_ERROR, CLOSE_NORMAL, LOG_WARN};
use crate::status::ErrorView;
use crate::text::decimal;
use vstd::arithmetic::power2::{lemma2_to64, lemma_pow2_pos, lemma_pow2_unfold, pow2};
use vstd::prelude::*;

verus! {

// -------------------------------------------------------------------- counting

/// A count goes up by one, and from its end back to zero.
pub proof fn counts_go_round(n: u64)
    ensures
        (one_more(n) - n - 1) % 0x1_0000_0000_0000_0000 == 0,
{
}

/// A sum is right up to whole turns of the machine's range.
pub proof fn sums_go_round(a: i64, b: i64)
    ensures
        (wrapped_sum(a, b) - (a + b)) % 0x1_0000_0000_0000_0000 == 0,
        i64::MIN <= a + b <= i64::MAX ==> wrapped_sum(a, b) == a + b,
{
}

/// The bytes at the heads of some queues, all together.
pub open spec fn bytes_at_heads(queues: Seq<Seq<Packet>>) -> int {
    queues.fold_left(
        0int,
        |sum: int, q: Seq<Packet>|
            sum + if q.len() > 0 {
                q[0].bytes as int
            } else {
                0
            },
    )
}

/// How many queues are not empty.
pub open spec fn heads_there(queues: Seq<Seq<Packet>>) -> int {
    queues.fold_left(
        0int,
        |sum: int, q: Seq<Packet>|
            sum + if q.len() > 0 {
                1int
            } else {
                0
            },
    )
}

/// Taking the first packet of each queue takes as many packets and as many
/// bytes off the totals of the graph, as long as these hold them.
pub proof fn heads_are_taken_off_the_totals(s: SharedView, queues: Seq<Seq<Packet>>)
    requires
        bytes_at_heads(queues) <= s.bytes,
        heads_there(queues) <= s.queued,
    ensures
        ({
            let after = heads_dequeued(s, queues, queues.len());
            &&& after.bytes == s.bytes - bytes_at_heads(queues)
            &&& after.queued == s.queued - heads_there(queues)
            &&& after.log == s.log && after.error == s.error && after.counters == s.counters
        }),
{
    lemma_heads(s, queues, queues.len());
    assert(queues.take(queues.len() as int) =~= queues);
}

proof fn lemma_heads(s: SharedView, queues: Seq<Seq<Packet>>, k: nat)
    requires
        k <= queues.len(),
        bytes_at_heads(queues.take(k as int)) <= s.bytes,
        heads_there(queues.take(k as int)) <= s.queued,
    ensures
        ({
            let after = heads_dequeued(s, queues, k);
            let some = queues.take(k as int);
            &&& after.bytes == s.bytes - bytes_at_heads(some)
            &&& after.queued == s.queued - heads_there(some)
            &&& after.log == s.log && after.error == s.error && after.counters == s.counters
            &&& bytes_at_heads(some) >= 0 && heads_there(some) >= 0
        }),
    decreases k,
{
    let some = queues.take(k as int);
    if k > 0 {
        let fewer = queues.take(k - 1);
        assert(some.drop_last() =~= fewer);
        assert(some.last() == queues[k - 1]);
        lemma_heads_are_counted(fewer);
        lemma_heads(s, queues, (k - 1) as nat);
    }
}

proof fn lemma_heads_are_counted(queues: Seq<Seq<Packet>>)
    ensures
        bytes_at_heads(queues) >= 0,
        heads_there(queues) >= 0,
    decreases queues.len(),
{
    if queues.len() > 0 {
        lemma_heads_are_counted(queues.drop_last());
    }
}

proof fn lemma_power_of_two(n: nat)
    ensures
        power_of_two(n) <==> exists|j: nat| #[trigger] pow2(j) == n,
    decreases n,
{
    lemma2_to64();
    if n == 0 {
        assert forall|j: nat| #[trigger] pow2(j) != n by {
            lemma_pow2_pos(j);
        }
    } else if n == 1 {
        assert(pow2(0) == 1);
    } else {
        lemma_power_of_two(n / 2);
        if power_of_two(n) {
            let j = choose|j: nat| #[trigger] pow2(j) == n / 2;
            lemma_pow2_unfold(j + 1);
            assert(pow2(j + 1) == n);
        }
        if exists|j: nat| #[trigger] pow2(j) == n {
            let j = choose|j: nat| #[trigger] pow2(j) == n;
            if j == 0 {
                assert(pow2(0) == 1);
            }
            lemma_pow2_unfold(j);
            assert(pow2((j - 1) as nat) == n / 2);
        }
    }
}

/// An edge with a long queue is warned about exactly when the queue is beyond
/// the soft limit and its length, in whole limits, is a power of two; and the
/// warning names the edge, the length and the limit.
pub proof fn backlogs_are_warned_about(g: RunView, edge: int, depth: nat)
    requires
        0 <= edge < g.edges.len(),
        !g.edges[edge].name.contains('\0'),
    ensures
        ({
            let limit = g.shared.config.max_queue_size as nat;
            let due = limit > 0 && depth > limit && exists|j: nat| #[trigger]
                pow2(j) == depth / limit;
            let after = g.warned(edge, depth);
            &&& due ==> {
                &&& after.shared.log.len() == g.shared.log.len() + 1
                &&& after.shared.log.drop_last() == g.shared.log
                &&& after.shared.log.last().level == LOG_WARN
                &&& mentions_text(after.shared.log.last().text, g.edges[edge].name)
                &&& mentions_text(after.shared.log.last().text, decimal(depth))
                &&& mentions_text(after.shared.log.last().text, decimal(limit))
            }
            &&& !due ==> after == g
            &&& after.nodes == g.nodes && after.edges == g.edges
        }),
{
    let limit = g.shared.config.max_queue_size as nat;
    if limit > 0 {
        lemma_power_of_two(depth / limit);
    }
    let after = g.warned(edge, depth);
    if limit > 0 && depth > limit && power_of_two(depth / limit) {
        let a = "边 `"@;
        let b = "` 积压 "@;
        let c = " 个包(软水位 "@;
        let d = "),消费端可能跟不上"@;
        let name = g.edges[edge].name;
        let text = a + name + b + decimal(depth) + c + decimal(limit) + d;
        assert(!text.contains('\0')) by {
            reveal_strlit("边 `");
            reveal_strlit("` 积压 ");
            reveal_strlit(" 个包(软水位 ");
            reveal_strlit("),消费端可能跟不上");
            lemma_number_is_clean(depth);
            lemma_number_is_clean(limit);
            joined_texts_stay_clean(a, name, '\0');
            joined_texts_stay_clean(a + name, b, '\0');
            joined_texts_stay_clean(a + name + b, decimal(depth), '\0');
            joined_texts_stay_clean(a + name + b + decimal(depth), c, '\0');
            joined_texts_stay_clean(a + name + b + decimal(depth) + c, decimal(limit), '\0');
            joined_texts_stay_clean(a + name + b + decimal(depth) + c + decimal(limit), d, '\0');
        }
        assert(text.subrange(a.len() as int, (a.len() + name.len()) as int) =~= name);
        let at = a.len() + name.len() + b.len();
        assert(text.subrange(at as int, (at + decimal(depth).len()) as int) =~= decimal(depth));
        let later = at + decimal(depth).len() + c.len();
        assert(text.subrange(later as int, (later + decimal(limit).len()) as int) =~= decimal(
            limit,
        ));
        assert(after.shared.log == g.shared.log.push(after.shared.log.last()));
        assert(after.shared.log.drop_last() =~= g.shared.log);
    }
}

// ---------------------------------------------------------------------- in line

/// Whether the nodes that were added to the line are, in the order of `list`
/// and each once, those of it that could be claimed.
pub open spec fn lined_up(g: RunView, list: Seq<usize>, after: RunView) -> bool {
    let added = after.main_queue.skip(g.main_queue.len() as int);
    &&& after.main_queue.len() >= g.main_queue.len()
    &&& after.main_queue.take(g.main_queue.len() as int) == g.main_queue
    &&& added.no_duplicates()
    &&& forall|m: usize| #[trigger] added.contains(m) <==> list.contains(m) && g.claimable(m as int)
    &&& forall|i: int, j: int|
        0 <= i < j < added.len() ==> list.index_of_first(#[trigger] added[i])->Some_0
            < list.index_of_first(#[trigger] added[j])->Some_0
}

/// After the first `k` nodes of a list were put in line.
spec fn list_scheduled(g: RunView, list: Seq<usize>, k: nat) -> RunView
    decreases k,
{
    if k == 0 {
        g
    } else {
        list_scheduled(g, list, (k - 1) as nat).scheduled(list[k - 1] as int)
    }
}

proof fn lemma_lined_up(g: RunView, list: Seq<usize>, k: nat)
    requires
        k <= list.len(),
        g.nodes.len() <= usize::MAX,
        forall|i: int| 0 <= i < list.len() ==> #[trigger] list[i] < g.nodes.len(),
    ensures
        ({
            let after = list_scheduled(g, list, k);
            let some = list.take(k as int);
            let added = after.main_queue.skip(g.main_queue.len() as int);
            &&& lined_up(g, some, after)
            &&& after.nodes.len() == g.nodes.len()
            &&& after.shared == g.shared && after.paused == g.paused
            &&& forall|m: int|
                0 <= m < g.nodes.len() ==> {
                    let (old_node, new_node) = (g.nodes[m], #[trigger] after.nodes[m]);
                    &&& new_node.queues == old_node.queues
                    &&& new_node.policy == old_node.policy
                    &&& new_node.sched.opened == old_node.sched.opened
                    &&& new_node.sched.closed == old_node.sched.closed
                    &&& new_node.sched.running <==> old_node.sched.running || added.contains(
                        m as usize,
                    )
                }
        }),
    decreases k,
{
    let some = list.take(k as int);
    if k == 0 {
        assert(g.main_queue.take(g.main_queue.len() as int) =~= g.main_queue);
        assert(g.main_queue.skip(g.main_queue.len() as int) =~= Seq::empty());
        assert(some =~= Seq::empty());
    } else {
        lemma_lined_up(g, list, (k - 1) as nat);
        let before = list_scheduled(g, list, (k - 1) as nat);
        let after = list_scheduled(g, list, k);
        let fewer = list.take(k - 1);
        let n = list[k - 1];
        let start = g.main_queue.len() as int;
        let early = before.main_queue.skip(start);
        let added = after.main_queue.skip(start);
        assert(n < g.nodes.len());
        assert(some =~= fewer.push(n));
        assert(before.nodes[n as int].ready() == g.nodes[n as int].ready());
        assert(before.claimable(n as int) <==> g.claimable(n as int) && !early.contains(n));
        assert forall|m: usize| #[trigger] some.contains(m) <==> fewer.contains(m) || m == n by {
            if fewer.contains(m) {
                let i = fewer.index_of(m);
                assert(some[i] == m);
            }
            if m == n {
                assert(some[k - 1] == n);
            }
            if some.contains(m) && m != n {
                let i = some.index_of(m);
                assert(fewer[i] == m);
            }
        }
        if before.claimable(n as int) {
            assert(added =~= early.push(n));
            assert(after.main_queue.take(start) =~= before.main_queue.take(start));
            assert(!fewer.contains(n)) by {
                if fewer.contains(n) {
                    assert(early.contains(n));
                }
            }
            assert forall|m: usize| #[trigger] added.contains(m) <==> early.contains(m) || m
                == n by {
                if early.contains(m) {
                    let i = early.index_of(m);
                    assert(added[i] == m);
                }
                if m == n {
                    assert(added[early.len() as int] == n);
                }
                if added.contains(m) && m != n {
                    let i = added.index_of(m);
                    assert(early[i] == m);
                }
            }
            lemma_first_place(fewer, n, n);
            assert forall|i: int, j: int|
                0 <= i < j < added.len() implies some.index_of_first(#[trigger] added[i])->Some_0
                < some.index_of_first(#[trigger] added[j])->Some_0 by {
                assert(added[i] == early[i]);
                assert(early.contains(early[i]));
                lemma_first_place(fewer, n, added[i]);
                if j < early.len() {
                    assert(added[j] == early[j]);
                    assert(early.contains(early[j]));
                    lemma_first_place(fewer, n, added[j]);
                }
            }
        } else {
            assert(after.main_queue == before.main_queue);
            assert forall|i: int, j: int|
                0 <= i < j < added.len() implies some.index_of_first(#[trigger] added[i])->Some_0
                < some.index_of_first(#[trigger] added[j])->Some_0 by {
                assert(added[i] == early[i] && added[j] == early[j]);
                assert(early.contains(early[i]) && early.contains(early[j]));
                lemma_first_place(fewer, n, added[i]);
                lemma_first_place(fewer, n, added[j]);
            }
            assert(added =~= early);
        }
        assert forall|m: usize| #[trigger] added.contains(m) <==> some.contains(m) && g.claimable(
            m as int,
        ) by {
            assert(early.contains(m) <==> fewer.contains(m) && g.claimable(m as int));
            assert(some.contains(m) <==> fewer.contains(m) || m == n);
        }
        assert forall|m: int| 0 <= m < g.nodes.len() implies {
            let (old_node, new_node) = (g.nodes[m], #[trigger] after.nodes[m]);
            &&& new_node.queues == old_node.queues
            &&& new_node.policy == old_node.policy
            &&& new_node.sched.opened == old_node.sched.opened
            &&& new_node.sched.closed == old_node.sched.closed
            &&& new_node.sched.running <==> old_node.sched.running || added.contains(m as usize)
        } by {
            let mid = before.nodes[m];
            if m == n {
                assert(m as usize == n);
            }
        }
        assert(added.no_duplicates());
        assert(lined_up(g, some, after));
    }
}

proof fn lemma_first_place(fewer: Seq<usize>, n: usize, m: usize)
    ensures
        fewer.contains(m) ==> {
            let all = fewer.push(n);
            &&& all.index_of_first(m) == fewer.index_of_first(m)
            &&& fewer.index_of_first(m) is Some
            &&& 0 <= fewer.index_of_first(m)->Some_0 < fewer.len()
        },
        !fewer.contains(m) && m == n ==> fewer.push(n).index_of_first(m) == Some(
            fewer.len() as int,
        ),
{
    let all = fewer.push(n);
    all.index_of_first_ensures(m);
    fewer.index_of_first_ensures(m);
    if fewer.contains(m) {
        let i = fewer.index_of_first(m)->Some_0;
        assert(all[i] == m);
        assert(all.contains(m));
        let j = all.index_of_first(m)->Some_0;
        if j < i {
            assert(fewer[j] == m);
            assert(fewer.take(i).contains(m)) by {
                assert(fewer.take(i)[j] == m);
            }
        }
        if i < j {
            assert(all.take(j)[i] == m);
            assert(all.take(j).contains(m));
        }
    } else if m == n {
        assert(all[fewer.len() as int] == n);
        assert(all.contains(m));
        let j = all.index_of_first(m)->Some_0;
        if j < fewer.len() {
            assert(fewer[j] == m);
        }
    }
}

/// Those who read an edge are put in line behind who stands there, in the
/// order in which they were connected, each once, and exactly if they can be
/// claimed.
pub proof fn readers_are_lined_up(g: RunView, edge: int)
    requires
        g.fits(),
        0 <= edge < g.edges.len(),
    ensures
        lined_up(
            g,
            g.edges[edge].consumers.map_values(|c: (usize, usize)| c.0),
            g.all_scheduled(edge, g.edges[edge].consumers.len()),
        ),
{
    let list = g.edges[edge].consumers.map_values(|c: (usize, usize)| c.0);
    assert forall|i: int| 0 <= i < list.len() implies #[trigger] list[i] < g.nodes.len() by {
        let (node, port) = g.edges[edge].consumers[i];
        assert(node < g.nodes.len());
    }
    lemma_lined_up(g, list, list.len());
    lemma_readers_listed(g, edge, list.len());
    assert(list.take(list.len() as int) =~= list);
}

proof fn lemma_readers_listed(g: RunView, edge: int, k: nat)
    requires
        0 <= edge < g.edges.len(),
        k <= g.edges[edge].consumers.len(),
    ensures
        g.all_scheduled(edge, k) == list_scheduled(
            g,
            g.edges[edge].consumers.map_values(|c: (usize, usize)| c.0),
            k,
        ),
    decreases k,
{
    if k > 0 {
        lemma_readers_listed(g, edge, (k - 1) as nat);
    }
}

/// When a graph goes on after a pause, all nodes that can be claimed are put in
/// line, from the first to the last.
pub proof fn everybody_is_lined_up(g: RunView, numbers: Seq<usize>)
    requires
        g.nodes.len() <= usize::MAX,
        numbers.len() == g.nodes.len(),
        forall|i: int| 0 <= i < numbers.len() ==> #[trigger] numbers[i] == i,
    ensures
        lined_up(g, numbers, g.nodes_scheduled(g.nodes.len())),
{
    lemma_lined_up(g, numbers, numbers.len());
    lemma_numbers_listed(g, numbers, numbers.len());
    assert(numbers.take(numbers.len() as int) =~= numbers);
}

proof fn lemma_numbers_listed(g: RunView, numbers: Seq<usize>, k: nat)
    requires
        k <= numbers.len(),
        forall|i: int| 0 <= i < numbers.len() ==> #[trigger] numbers[i] == i,
    ensures
        g.nodes_scheduled(k) == list_scheduled(g, numbers, k),
    decreases k,
{
    if k > 0 {
        lemma_numbers_listed(g, numbers, (k - 1) as nat);
        assert(numbers[k - 1] == k - 1);
    }
}

// -------------------------------------------------------------------- sweeping

/// A sweep closes the first node from where it is that is to be closed. Where
/// there is none it ends, and the graph is terminated exactly if nothing was
/// done on the way and every node is closed.
pub proof fn sweeps_go_in_order(g: RunView, n: int, progressed: bool, now: u64)
    requires
        0 <= n <= g.nodes.len() <= usize::MAX,
    ensures
        ({
            let (after, action) = g.swept(n, progressed, now);
            &&& (exists|m: int| n <= m < g.nodes.len() && #[trigger] g.closable(m)) ==> {
                let m = action->Call_0 as int;
                &&& action is Call && action->Call_1 is Close
                &&& n <= m < g.nodes.len()
                &&& g.closable(m)
                &&& forall|k: int| n <= k < m ==> !#[trigger] g.closable(k)
                &&& after.state == g.state
                &&& after.task == Task::Sweeping(m as usize)
            }
            &&& !(exists|m: int| n <= m < g.nodes.len() && #[trigger] g.closable(m)) ==> {
                &&& action == Action::Done(progressed)
                &&& after.nodes == g.nodes && after.edges == g.edges
                &&& !progressed && g.all_closed() ==> after.state is Terminated
                &&& progressed || !g.all_closed() ==> after.state == g.state
            }
        }),
    decreases g.nodes.len() - n,
{
    if n < g.nodes.len() {
        if g.closable(n) {
            let m = n;
            assert(g.closable(m));
        } else {
            sweeps_go_in_order(g, n + 1, progressed, now);
            let (after, action) = g.swept(n, progressed, now);
            if exists|m: int| n <= m < g.nodes.len() && #[trigger] g.closable(m) {
                let m = choose|m: int| n <= m < g.nodes.len() && #[trigger] g.closable(m);
                assert(m != n);
                assert(n + 1 <= m < g.nodes.len() && g.closable(m));
                let found = action->Call_0 as int;
                assert forall|k: int| n <= k < found implies !#[trigger] g.closable(k) by {
                    if k > n {
                        assert(n + 1 <= k < found);
                    }
                }
            }
        }
    }
}

/// A graph that is thrown away closes the first node that is still open, and
/// tells it why. Where there is none it is done.
pub proof fn teardown_goes_in_order(g: RunView, n: int, now: u64)
    requires
        0 <= n <= g.nodes.len() <= usize::MAX,
    ensures
        ({
            let (after, found) = g.torn(n, now);
            &&& found matches Some(m) ==> {
                &&& n <= m < g.nodes.len()
                &&& g.nodes[m as int].sched.opened && !g.nodes[m as int].sched.closed
                &&& forall|k: int|
                    n <= k < m ==> !(#[trigger] g.nodes[k]).sched.opened || g.nodes[k].sched.closed
                &&& after.nodes[m as int].ctx.close_reason == g.shared.close_reason()
            }
            &&& found is None ==> {
                &&& forall|k: int|
                    n <= k < g.nodes.len() ==> !(#[trigger] g.nodes[k]).sched.opened
                        || g.nodes[k].sched.closed
                &&& after.nodes == g.nodes
            }
            &&& after.main_queue == g.main_queue && after.edges == g.edges
        }),
    decreases g.nodes.len() - n,
{
    if n < g.nodes.len() {
        if !(g.nodes[n].sched.opened && !g.nodes[n].sched.closed) {
            teardown_goes_in_order(g, n + 1, now);
            let (after, found) = g.torn(n, now);
            if found is Some {
                let m = found->Some_0 as int;
                assert forall|k: int| n <= k < m implies !(#[trigger] g.nodes[k]).sched.opened
                    || g.nodes[k].sched.closed by {
                    if k > n {
                        assert(n + 1 <= k < m);
                    }
                }
            } else {
                assert forall|k: int| n <= k < g.nodes.len() implies !(
                #[trigger] g.nodes[k]).sched.opened || g.nodes[k].sched.closed by {
                    if k > n {
                        assert(n + 1 <= k);
                    }
                }
            }
        }
    }
}

/// A node that is closed because its graph is thrown away sends nothing and
/// puts nobody in line. A status code is only noted, and does not fail the
/// graph.
pub proof fn teardown_sends_nothing(g: RunView, n: int, rc: i32)
    requires
        0 <= n < g.nodes.len(),
    ensures
        ({
            let after = g.dropped_node(n, rc);
            &&& after.nodes[n].sched.closed
            &&& after.edges == g.edges
            &&& after.outbox == g.outbox
            &&& after.main_queue == g.main_queue
            &&& after.shared.error == g.shared.error
            &&& rc == 0 ==> after.shared.log == g.shared.log
            &&& after.shared.log.len() <= g.shared.log.len() + 1
            &&& forall|m: int| 0 <= m < g.nodes.len() && m != n ==> after.nodes[m] == g.nodes[m]
            &&& after.nodes[n].queues == g.nodes[n].queues
        }),
{
}

/// Kernels hear that the graph was cancelled before they hear that it failed,
/// and only then; so does whoever waits for the end.
pub proof fn ends_have_a_reason(g: RunView)
    ensures
        g.shared.cancelled ==> g.shared.close_reason() == CLOSE_CANCELLED && g.verdict() == Some(
            ErrorView::Cancelled,
        ),
        !g.shared.cancelled && g.shared.error is Some ==> g.shared.close_reason() == CLOSE_ERROR
            && g.verdict() == g.shared.error,
        !g.shared.cancelled && g.shared.error is None ==> g.shared.close_reason() == CLOSE_NORMAL
            && g.verdict() is None,
        CLOSE_NORMAL != CLOSE_ERROR && CLOSE_ERROR != CLOSE_CANCELLED && CLOSE_NORMAL
            != CLOSE_CANCELLED,
{
}

/// The states of a graph follow each other in number, and no two are called
/// alike.
pub proof fn states_can_be_told_apart(s: State, t: State)
    ensures
        state_number(s) == state_number(t) ==> s == t,
        state_name(s) == state_name(t) ==> s == t,
        state_number(State::Created) < state_number(State::Initialized) < state_number(
            State::Running,
        ) < state_number(State::Draining) < state_number(State::Terminated),
{
    reveal_strlit("Created");
    reveal_strlit("Initialized");
    reveal_strlit("Running");
    reveal_strlit("Draining");
    reveal_strlit("Terminated");
    let (a, b) = (state_name(s), state_name(t));
    if a == b {
        assert(a.len() == b.len());
        assert(a[0] == b[0]);
    }
}

// -------------------------------------------------------------------- building

/// A graph needs exactly the side packets that its kernels ask for, each for
/// the node that asks.
pub proof fn side_packets_are_asked_for(
    g: GraphView,
    contracts: Seq<ContractView>,
    need: Seq<char>,
    who: Seq<char>,
)
    requires
        contracts.len() == g.nodes.len(),
    ensures
        all_required(g, contracts, g.nodes.len()).contains((need, who)) <==> exists|i: int|
            {
                &&& 0 <= i < g.nodes.len()
                &&& (#[trigger] contracts[i]).required_side_packets.contains(need)
                &&& who == g.nodes[i].numbered_label(i as nat)
            },
{
    lemma_required(g, contracts, g.nodes.len(), need, who);
}

proof fn lemma_required(
    g: GraphView,
    contracts: Seq<ContractView>,
    k: nat,
    need: Seq<char>,
    who: Seq<char>,
)
    requires
        contracts.len() == g.nodes.len(),
        k <= g.nodes.len(),
    ensures
        all_required(g, contracts, k).contains((need, who)) <==> exists|i: int|
            {
                &&& 0 <= i < k
                &&& (#[trigger] contracts[i]).required_side_packets.contains(need)
                &&& who == g.nodes[i].numbered_label(i as nat)
            },
    decreases k,
{
    if k > 0 {
        lemma_required(g, contracts, (k - 1) as nat, need, who);
        let before = all_required(g, contracts, (k - 1) as nat);
        let names = contracts[k - 1].required_side_packets;
        let label = g.nodes[k - 1].numbered_label((k - 1) as nat);
        let more = Seq::new(names.len(), |j: int| (names[j], label));
        let all = all_required(g, contracts, k);
        assert(all == before + more);
        if all.contains((need, who)) {
            let i = all.index_of((need, who));
            if i < before.len() {
                assert(before[i] == (need, who));
                assert(before.contains((need, who)));
            } else {
                assert(more[i - before.len()] == (need, who));
                assert(names[i - before.len()] == need);
                assert(names.contains(need));
                assert(contracts[k - 1].required_side_packets.contains(need));
            }
        }
        if exists|i: int|
            {
                &&& 0 <= i < k
                &&& (#[trigger] contracts[i]).required_side_packets.contains(need)
                &&& who == g.nodes[i].numbered_label(i as nat)
            } {
            let i = choose|i: int|
                {
                    &&& 0 <= i < k
                    &&& (#[trigger] contracts[i]).required_side_packets.contains(need)
                    &&& who == g.nodes[i].numbered_label(i as nat)
                };
            if i < k - 1 {
                assert(contracts[i].required_side_packets.contains(need));
                assert(before.contains((need, who)));
                let j = before.index_of((need, who));
                assert(all[j] == (need, who));
            } else {
                let j = names.index_of(need);
                assert(names[j] == need);
                assert(more[j] == (need, who));
                assert(all[before.len() + j] == (need, who));
            }
        }
    }
}

/// A graph that was built has each node of the configuration at its place, not
/// opened, with nothing waiting and nothing counted, and with the policy that
/// the configuration names.
pub proof fn built_nodes_are_as_configured(
    g: GraphView,
    contracts: Seq<ContractView>,
    names: Map<u64, Seq<char>>,
    i: int,
)
    requires
        contracts.len() == g.nodes.len(),
        0 <= i < g.nodes.len(),
    ensures
        ({
            let n = built(g, contracts, names).nodes[i];
            let c = g.nodes[i];
            &&& built(g, contracts, names).nodes.len() == g.nodes.len()
            &&& n.kernel_name == c.kernel
            &&& n.ctx.options == c.options
            &&& n.ctx.kernel_name == c.kernel
            &&& n.ctx.node_name == n.name
            &&& n.input_types == contracts[i].input_types
            &&& n.output_types == contracts[i].output_types
            &&& !n.sched.opened && !n.sched.closed && !n.sched.running
            &&& n.stats.processed == 0 && n.stats.errors == 0
            &&& n.waiting(n.queues.len()) == 0
            &&& n.running_since is None
            &&& n.policy is Immediate <==> c.input_policy.kind == "immediate"@
            &&& n.policy is FixedSize <==> c.input_policy.kind == "fixed_size"@
            &&& n.policy is FixedSize ==> n.policy == Policy::FixedSize(c.input_policy.capacity)
        }),
{
    reveal_strlit("immediate");
    reveal_strlit("fixed_size");
    assert("immediate"@.len() != "fixed_size"@.len());
    let n = built(g, contracts, names).nodes[i];
    assert(n == blank_node(g, i, contracts[i]));
    lemma_nothing_waits(n, n.queues.len());
}

proof fn lemma_nothing_waits(n: RunNode, k: nat)
    requires
        k <= n.queues.len(),
        forall|i: int| 0 <= i < n.queues.len() ==> (#[trigger] n.queues[i]).len() == 0,
    ensures
        n.waiting(k) == 0,
    decreases k,
{
    if k > 0 {
        lemma_nothing_waits(n, (k - 1) as nat);
        assert(n.queues[k - 1].len() == 0);
    }
}

/// What waits at a node is what waits at all of its ports.
pub proof fn what_waits_is_a_sum(n: RunNode)
    ensures
        n.waiting(n.queues.len()) == n.queues.fold_left(
            0nat,
            |sum: nat, q: Seq<Packet>| sum + q.len(),
        ),
{
    lemma_waiting(n, n.queues.len());
    assert(n.queues.take(n.queues.len() as int) =~= n.queues);
}

proof fn lemma_waiting(n: RunNode, k: nat)
    requires
        k <= n.queues.len(),
    ensures
        n.waiting(k) == n.queues.take(k as int).fold_left(
            0nat,
            |sum: nat, q: Seq<Packet>| sum + q.len(),
        ),
    decreases k,
{
    if k > 0 {
        lemma_waiting(n, (k - 1) as nat);
        let some = n.queues.take(k as int);
        assert(some.drop_last() =~= n.queues.take(k - 1));
        assert(some.last() == n.queues[k - 1]);
    }
}

// ----------------------------------------------------------------------- places

/// What is done to one node is done to no other, nor to an edge; and the other
/// way round.
pub proof fn changes_stay_in_place(
    g: RunView,
    n: int,
    x: RunNode,
    e: int,
    y: RunEdge,
    m: int,
)
    requires
        0 <= n < g.nodes.len(),
        0 <= e < g.edges.len(),
    ensures
        g.with_node(n, x).nodes[n] == x,
        0 <= m < g.nodes.len() && m != n ==> g.with_node(n, x).nodes[m] == g.nodes[m],
        g.with_node(n, x).nodes.len() == g.nodes.len(),
        g.with_node(n, x).edges == g.edges && g.with_node(n, x).shared == g.shared,
        g.with_edge(e, y).edges[e] == y,
        0 <= m < g.edges.len() && m != e ==> g.with_edge(e, y).edges[m] == g.edges[m],
        g.with_edge(e, y).edges.len() == g.edges.len(),
        g.with_edge(e, y).nodes == g.nodes && g.with_edge(e, y).shared == g.shared,
        g.with_ctx(n, x.ctx).nodes[n] == (RunNode { ctx: x.ctx, ..g.nodes[n] }),
        g.with_sched(n, x.sched).nodes[n] == (RunNode { sched: x.sched, ..g.nodes[n] }),
        g.with_stats(n, x.stats).nodes[n] == (RunNode { stats: x.stats, ..g.nodes[n] }),
{
}

proof fn lemma_edge_is_closed(g: RunView, edge: int, e: int)
    requires
        0 <= edge < g.edges.len(),
        0 <= e < g.edges.len(),
    ensures
        g.edge_closed(edge).edges.len() == g.edges.len(),
        g.edge_closed(edge).edges[e].closed <==> g.edges[e].closed || e == edge,
        g.edge_closed(edge).edges[e].last_sent == g.edges[e].last_sent,
        g.edge_closed(edge).edges[e].observers == g.edges[e].observers,
{
    let x = g.edges[edge];
    if !x.closed {
        let marked = g.with_edge(
            edge,
            RunEdge {
                closed: true,
                pollers: Seq::new(
                    x.pollers.len(),
                    |i: int| PollerView { closed: true, ..x.pollers[i] },
                ),
                ..x
            },
        );
        lemma_ports_closed_edges(marked, x.consumers, x.consumers.len());
    }
}

/// Closing several edges closes those and no other.
pub proof fn edges_are_closed_together(g: RunView, edges: Seq<usize>, k: nat, e: int)
    requires
        k <= edges.len(),
        forall|i: int| 0 <= i < edges.len() ==> #[trigger] edges[i] < g.edges.len(),
        0 <= e < g.edges.len(),
    ensures
        g.edges_closed(edges, k).edges.len() == g.edges.len(),
        g.edges_closed(edges, k).edges[e].closed <==> g.edges[e].closed || exists|i: int|
            0 <= i < k && #[trigger] edges[i] == e,
    decreases k,
{
    if k > 0 {
        edges_are_closed_together(g, edges, (k - 1) as nat, e);
        let before = g.edges_closed(edges, (k - 1) as nat);
        assert(edges[k - 1] < g.edges.len());
        lemma_edge_is_closed(before, edges[k - 1] as int, e);
        if exists|i: int| 0 <= i < k && #[trigger] edges[i] == e {
            let i = choose|i: int| 0 <= i < k && #[trigger] edges[i] == e;
            assert(edges[i] == e);
        }
    }
}

/// A node that is through stands in line again, at its end, exactly if it is
/// ready and may run; else it is free. Nobody asks it to look again.
pub proof fn nodes_that_are_through_line_up_again(g: RunView, n: int)
    requires
        0 <= n < g.nodes.len() <= usize::MAX,
    ensures
        ({
            let node = g.nodes[n];
            let after = g.finished(n);
            let again = g.shared.error is None && !g.shared.cancelled && !g.paused
                && node.sched.opened && !node.sched.closed && node.ready();
            &&& !after.nodes[n].sched.rescan
            &&& after.nodes[n].sched.running <==> again
            &&& again ==> after.main_queue == g.main_queue.push(n as usize)
            &&& !again ==> after.main_queue == g.main_queue
            &&& after.nodes[n].queues == node.queues
            &&& after.edges == g.edges && after.shared == g.shared
        }),
{
    let free = g.with_sched(n, NodeSched { running: false, rescan: false, ..g.nodes[n].sched });
    assert(free.nodes[n].ready() == g.nodes[n].ready());
}

proof fn lemma_all_queued_order(
    g: RunView,
    edge: int,
    node: int,
    port: int,
    packets: Seq<Packet>,
    e: int,
)
    requires
        0 <= edge < g.edges.len(),
        0 <= e < g.edges.len(),
    ensures
        ({
            let after = g.all_queued(edge, node, port, packets);
            &&& after.edges.len() == g.edges.len()
            &&& after.edges[e].last_sent == g.edges[e].last_sent
            &&& after.edges[e].name == g.edges[e].name
        }),
    decreases packets.len(),
{
    if packets.len() > 0 {
        lemma_all_queued_order(g, edge, node, port, packets.drop_last(), e);
    }
}

proof fn lemma_consumed_order(g: RunView, edge: int, packets: Seq<Packet>, k: nat, e: int)
    requires
        0 <= edge < g.edges.len(),
        0 <= e < g.edges.len(),
    ensures
        g.consumed(edge, packets, k).edges.len() == g.edges.len(),
        g.consumed(edge, packets, k).edges[e].last_sent == g.edges[e].last_sent,
    decreases k,
{
    if k > 0 {
        lemma_consumed_order(g, edge, packets, (k - 1) as nat, e);
        let before = g.consumed(edge, packets, (k - 1) as nat);
        let (node, port) = g.edges[edge].consumers[k - 1];
        lemma_all_queued_order(before, edge, node as int, port as int, packets, e);
    }
}

proof fn lemma_scheduled_edges(g: RunView, edge: int, k: nat)
    ensures
        g.all_scheduled(edge, k).edges == g.edges,
    decreases k,
{
    if k > 0 {
        lemma_scheduled_edges(g, edge, (k - 1) as nat);
    }
}

/// A graph input remembers the time stamp of the packet that it took last, and
/// takes no packet of that time or an earlier one afterwards.
pub proof fn inputs_remember_the_last_time(g: RunView, edge: int, p: Packet, q: Packet)
    requires
        0 <= edge < g.edges.len(),
        p.stamp.0 != i64::MIN,
    ensures
        g.accepted(edge, p).edges[edge].last_sent == p.stamp,
        g.accepted(edge, p).order_problem(edge, q) is Some <==> q.stamp.0 <= p.stamp.0,
        forall|e: int|
            0 <= e < g.edges.len() && e != edge ==> (#[trigger] g.accepted(
                edge,
                p,
            ).edges[e]).last_sent == g.edges[e].last_sent,
{
    let stamped = g.with_edge(edge, RunEdge { last_sent: p.stamp, ..g.edges[edge] });
    lemma_sent_order(stamped, edge, seq![p], edge);
    assert forall|e: int| 0 <= e < g.edges.len() && e != edge implies (#[trigger] g.accepted(
        edge,
        p,
    ).edges[e]).last_sent == g.edges[e].last_sent by {
        lemma_sent_order(stamped, edge, seq![p], e);
    }
}

proof fn lemma_sent_order(g: RunView, edge: int, packets: Seq<Packet>, e: int)
    requires
        0 <= edge < g.edges.len(),
        0 <= e < g.edges.len(),
    ensures
        g.sent(edge, packets).edges.len() == g.edges.len(),
        g.sent(edge, packets).edges[e].last_sent == g.edges[e].last_sent,
{
    let x = g.edges[edge];
    let told = RunView {
        outbox: g.outbox + RunView::notices(x.observers, packets, x.observers.len()),
        ..g
    }.with_edge(
        edge,
        RunEdge {
            pollers: Seq::new(
                x.pollers.len(),
                |i: int| PollerView { queue: x.pollers[i].queue + packets, ..x.pollers[i] },
            ),
            ..x
        },
    );
    lemma_consumed_order(told, edge, packets, x.consumers.len(), e);
    let after = g.dispatched(edge, packets);
    lemma_scheduled_edges(after, edge, x.consumers.len());
}

} // verus!
