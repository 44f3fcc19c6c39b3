//! Cycles in a graph of nodes, found by depth-first search.

use vstd::prelude::*;

verus! {

/// The successors of every node.
pub type Successors = Seq<Seq<usize>>;

/// Whether every successor is a node.
pub open spec fn in_range(adj: Successors) -> bool {
    forall|u: int, c: int|
        0 <= u < adj.len() && 0 <= c < adj[u].len() ==> (#[trigger] adj[u][c]) < adj.len()
}

/// Whether an edge leads from `u` to `v`.
pub open spec fn has_edge(adj: Successors, u: usize, v: usize) -> bool {
    u < adj.len() && adj[u as int].contains(v)
}

/// Whether each node of a path has an edge to the next.
pub open spec fn is_walk(adj: Successors, path: Seq<usize>) -> bool {
    path.len() > 0 && forall|i: int|
        0 <= i < path.len() - 1 ==> has_edge(adj, #[trigger] path[i], path[i + 1])
}

/// Whether some path leads back to its start.
pub open spec fn cyclic(adj: Successors) -> bool {
    exists|path: Seq<usize>|
        #[trigger] is_walk(adj, path) && path.len() >= 2 && path[0] == path.last()
}

/// Whether `order` holds every node once, each behind all of its successors.
pub open spec fn successors_first(adj: Successors, order: Seq<usize>) -> bool {
    &&& order.no_duplicates()
    &&& forall|u: usize| u < adj.len() ==> #[trigger] order.contains(u)
    &&& forall|i: int, c: int|
        0 <= i < order.len() && 0 <= c < adj[order[i] as int].len() ==> order.take(i).contains(
            #[trigger] adj[order[i] as int][c],
        )
}

/// Whether the nodes can be put in such an order.
pub open spec fn can_be_ordered(adj: Successors) -> bool {
    exists|order: Seq<usize>| successors_first(adj, order)
}

/// The number of nodes that were not reached yet.
pub open spec fn unvisited(marks: Seq<u8>) -> nat
    decreases marks.len(),
{
    if marks.len() == 0 {
        0
    } else {
        unvisited(marks.drop_last()) + if marks.last() == 0 {
            1nat
        } else {
            0nat
        }
    }
}

/// The number of edges of the nodes on the path that were not followed yet.
pub open spec fn edges_left(adj: Successors, stack: Seq<(usize, usize)>) -> nat
    decreases stack.len(),
{
    if stack.len() == 0 {
        0
    } else {
        edges_left(adj, stack.drop_last()) + (adj[stack.last().0 as int].len()
            - stack.last().1) as nat
    }
}

/// Whether the marks and the path speak of nodes of the graph.
pub open spec fn fits(adj: Successors, marks: Seq<u8>, stack: Seq<(usize, usize)>) -> bool {
    &&& in_range(adj)
    &&& marks.len() == adj.len()
    &&& forall|j: int|
        0 <= j < stack.len() ==> (#[trigger] stack[j]).0 < adj.len() && stack[j].1
            <= adj[stack[j].0 as int].len()
}

pub proof fn lemma_unvisited_update(marks: Seq<u8>, i: int, m: u8)
    requires
        0 <= i < marks.len(),
        m != 0,
    ensures
        unvisited(marks.update(i, m)) == unvisited(marks) - if marks[i] == 0 {
            1int
        } else {
            0int
        },
    decreases marks.len(),
{
    let new = marks.update(i, m);
    if i == marks.len() - 1 {
        assert(new.drop_last() =~= marks.drop_last());
    } else {
        lemma_unvisited_update(marks.drop_last(), i, m);
        assert(new.drop_last() =~= marks.drop_last().update(i, m));
    }
}

pub proof fn lemma_edges_left_advance(adj: Successors, stack: Seq<(usize, usize)>)
    requires
        stack.len() > 0,
        stack.last().1 < adj[stack.last().0 as int].len(),
    ensures
        edges_left(
            adj,
            stack.drop_last().push((stack.last().0, (stack.last().1 + 1) as usize)),
        ) + 1 == edges_left(adj, stack) || stack.last().1 == usize::MAX,
{
    let advanced = stack.drop_last().push((stack.last().0, (stack.last().1 + 1) as usize));
    assert(advanced.drop_last() =~= stack.drop_last());
}

/// Depth-first search from a path onwards. A node is marked 1 while it is on
/// the path and 2 when all that it leads to was searched; then it joins
/// `done`. The search ends with the first edge that leads back to the path.
pub open spec fn searched(
    adj: Successors,
    marks: Seq<u8>,
    stack: Seq<(usize, usize)>,
    done: Seq<usize>,
) -> Result<(Seq<u8>, Seq<usize>), (usize, usize)>
    decreases unvisited(marks), edges_left(adj, stack) + stack.len(),
    when fits(adj, marks, stack) && (forall|u: int|
        0 <= u < adj.len() ==> (#[trigger] adj[u]).len() <= usize::MAX)
{
    if stack.len() == 0 {
        Ok((marks, done))
    } else {
        let (node, cursor) = stack.last();
        if cursor < adj[node as int].len() {
            let next = adj[node as int][cursor as int];
            let advanced = stack.drop_last().push((node, (cursor + 1) as usize));
            proof {
                assert(stack[stack.len() - 1] == stack.last());
                lemma_edges_left_advance(adj, stack);
                if marks[next as int] == 0 {
                    lemma_unvisited_update(marks, next as int, 1);
                }
            }
            if marks[next as int] == 1 {
                Err((node, next))
            } else if marks[next as int] == 0 {
                searched(adj, marks.update(next as int, 1), advanced.push((next, 0)), done)
            } else {
                searched(adj, marks, advanced, done)
            }
        } else {
            proof {
                assert(stack[stack.len() - 1] == stack.last());
                lemma_unvisited_update(marks, node as int, 2);
            }
            searched(adj, marks.update(node as int, 2), stack.drop_last(), done.push(node))
        }
    }
}

/// Depth-first search from each node from `start` on that was not reached
/// before.
pub open spec fn searched_from(
    adj: Successors,
    marks: Seq<u8>,
    done: Seq<usize>,
    start: int,
) -> Result<Seq<usize>, (usize, usize)>
    decreases adj.len() - start,
{
    if start >= adj.len() {
        Ok(done)
    } else if marks[start] != 0 {
        searched_from(adj, marks, done, start + 1)
    } else {
        match searched(adj, marks.update(start, 1), seq![(start as usize, 0usize)], done) {
            Err(e) => Err(e),
            Ok((m, d)) => searched_from(adj, m, d, start + 1),
        }
    }
}

/// The nodes with successors first, or the first edge that depth-first search
/// in the order of the nodes finds to close a cycle.
pub open spec fn first_cycle(adj: Successors) -> Result<Seq<usize>, (usize, usize)> {
    searched_from(adj, Seq::new(adj.len(), |i: int| 0u8), Seq::empty(), 0)
}

/// The successors that a list of lists holds.
pub open spec fn successor_view(adj: Seq<Vec<usize>>) -> Successors {
    Seq::new(adj.len(), |i: int| adj[i]@)
}

/// The first edge that closes a cycle, if there is one.
pub fn find_cycle(adj: &Vec<Vec<usize>>) -> (r: Option<(usize, usize)>)
    requires
        in_range(successor_view(adj@)),
    ensures
        match first_cycle(successor_view(adj@)) {
            Ok(_) => r is None,
            Err(e) => r == Some(e),
        },
{
    let n: usize = adj.len();
    let ghost graph = successor_view(adj@);
    assert forall|u: int| 0 <= u < graph.len() implies (#[trigger] graph[u]).len()
        <= usize::MAX by {
        assert(graph[u] == adj@[u]@);
        assert(adj@[u].len() == adj@[u]@.len());
    }
    let mut marks: Vec<u8> = Vec::new();
    for i in 0..n
        invariant
            marks@.len() == i,
            forall|k: int| 0 <= k < i ==> #[trigger] marks@[k] == 0,
    {
        marks.push(0);
    }
    let ghost mut done: Seq<usize> = Seq::empty();
    assert(marks@ =~= Seq::new(graph.len(), |i: int| 0u8));
    for start in 0..n
        invariant
            n == adj@.len(),
            graph == successor_view(adj@),
            in_range(graph),
            forall|u: int| 0 <= u < graph.len() ==> (#[trigger] graph[u]).len() <= usize::MAX,
            marks@.len() == n,
            searched_from(graph, marks@, done, start as int) == first_cycle(graph),
    {
        if marks[start] == 0 {
            marks.set(start, 1);
            let mut stack: Vec<(usize, usize)> = Vec::new();
            stack.push((start, 0));
            let ghost whole = searched(graph, marks@, stack@, done);
            assert(stack@ =~= seq![(start, 0usize)]);
            while stack.len() > 0
                invariant
                    n == adj@.len(),
                    graph == successor_view(adj@),
                    fits(graph, marks@, stack@),
                    forall|u: int| 0 <= u < graph.len() ==> (#[trigger] graph[u]).len() <= usize::MAX,
                    searched(graph, marks@, stack@, done) == whole,
                    match whole {
                        Err(e) => first_cycle(graph) == Err::<Seq<usize>, (usize, usize)>(e),
                        Ok((m, d)) => searched_from(graph, m, d, start + 1) == first_cycle(graph),
                    },
                decreases unvisited(marks@), edges_left(graph, stack@) + stack@.len(),
            {
                let top: usize = stack.len() - 1;
                let (node, cursor) = stack[top];
                assert(stack@.last() == (node, cursor));
                assert(graph[node as int] == adj@[node as int]@);
                if cursor < adj[node].len() {
                    let next: usize = adj[node][cursor];
                    assert(graph[node as int][cursor as int] == next);
                    let ghost before = stack@;
                    stack.set(top, (node, cursor + 1));
                    assert(stack@ =~= before.drop_last().push((node, (cursor + 1) as usize)));
                    proof {
                        lemma_edges_left_advance(graph, before);
                        if marks@[next as int] == 0 {
                            lemma_unvisited_update(marks@, next as int, 1);
                        }
                    }
                    let mark: u8 = marks[next];
                    if mark == 1 {
                        return Some((node, next));
                    }
                    if mark == 0 {
                        marks.set(next, 1);
                        stack.push((next, 0));
                    }
                } else {
                    let ghost before = stack@;
                    proof {
                        lemma_unvisited_update(marks@, node as int, 2);
                        done = done.push(node);
                    }
                    marks.set(node, 2);
                    stack.pop();
                    assert(stack@ =~= before.drop_last());
                }
            }
        }
    }
    None
}

// ------------------------------------------------------------------------ laws

/// Whether the edge from `u` to `v` closes a cycle: some path leads from `v`
/// back to `u`.
pub open spec fn closes_cycle(adj: Successors, u: usize, v: usize) -> bool {
    has_edge(adj, u, v) && exists|path: Seq<usize>|
        #[trigger] is_walk(adj, path) && path[0] == v && path.last() == u
}

/// The nodes of a path.
spec fn nodes_of(stack: Seq<(usize, usize)>) -> Seq<usize> {
    Seq::new(stack.len(), |j: int| stack[j].0)
}

/// What holds at every step of the search.
spec fn sound(
    adj: Successors,
    marks: Seq<u8>,
    stack: Seq<(usize, usize)>,
    done: Seq<usize>,
) -> bool {
    &&& fits(adj, marks, stack)
    &&& forall|u: int| 0 <= u < adj.len() ==> (#[trigger] adj[u]).len() <= usize::MAX
    &&& adj.len() <= usize::MAX
    &&& forall|u: usize| u < adj.len() ==> (#[trigger] marks[u as int] == 2 <==> done.contains(u))
    &&& forall|u: usize|
        u < adj.len() ==> (#[trigger] marks[u as int] == 1 <==> nodes_of(stack).contains(u))
    &&& forall|u: int| 0 <= u < adj.len() ==> #[trigger] marks[u] <= 2
    &&& nodes_of(stack).no_duplicates()
    &&& done.no_duplicates()
    &&& forall|i: int| 0 <= i < done.len() ==> (#[trigger] done[i]) < adj.len()
    &&& forall|i: int, c: int|
        0 <= i < done.len() && 0 <= c < adj[done[i] as int].len() ==> done.take(i).contains(
            #[trigger] adj[done[i] as int][c],
        )
    &&& forall|j: int|
        0 <= j < stack.len() - 1 ==> (#[trigger] stack[j]).1 >= 1 && adj[stack[j].0 as int][stack[j].1
            - 1] == stack[j + 1].0
    &&& forall|j: int, c: int|
        0 <= j < stack.len() && 0 <= c < stack[j].1 - (if j < stack.len() - 1 {
            1int
        } else {
            0int
        }) ==> marks[#[trigger] adj[stack[j].0 as int][c] as int] == 2
}

/// The nodes of the path from position `j` on form a walk.
proof fn lemma_path_walk(
    adj: Successors,
    marks: Seq<u8>,
    stack: Seq<(usize, usize)>,
    done: Seq<usize>,
    j: int,
)
    requires
        sound(adj, marks, stack, done),
        0 <= j < stack.len(),
    ensures
        is_walk(adj, nodes_of(stack).skip(j)),
{
    let path = nodes_of(stack).skip(j);
    assert forall|i: int| 0 <= i < path.len() - 1 implies has_edge(
        adj,
        #[trigger] path[i],
        path[i + 1],
    ) by {
        let (node, cursor) = stack[j + i];
        assert(adj[node as int][cursor - 1] == stack[j + i + 1].0);
        assert(path[i] == node && path[i + 1] == stack[j + i + 1].0);
    }
}

proof fn lemma_enter(
    adj: Successors,
    marks: Seq<u8>,
    stack: Seq<(usize, usize)>,
    done: Seq<usize>,
)
    requires
        sound(adj, marks, stack, done),
        stack.len() > 0,
        stack.last().1 < adj[stack.last().0 as int].len(),
        marks[adj[stack.last().0 as int][stack.last().1 as int] as int] == 0,
    ensures
        ({
            let (node, cursor) = stack.last();
            let next = adj[node as int][cursor as int];
            let advanced = stack.drop_last().push((node, (cursor + 1) as usize));
            sound(adj, marks.update(next as int, 1), advanced.push((next, 0)), done)
        }),
{
    let (node, cursor) = stack.last();
    let top = stack.len() - 1;
    assert(stack[top] == stack.last());
    let next = adj[node as int][cursor as int];
    let advanced = stack.drop_last().push((node, (cursor + 1) as usize));
    let after = advanced.push((next, 0usize));
    let new_marks = marks.update(next as int, 1);
    assert(nodes_of(after) =~= nodes_of(stack).push(next));
    let names = nodes_of(stack);
    assert(!names.contains(next));
    assert forall|u: usize| u < adj.len() implies (#[trigger] new_marks[u as int] == 1
        <==> nodes_of(after).contains(u)) by {
        if names.contains(u) {
            let k = names.index_of(u);
            assert(nodes_of(after)[k] == u);
        }
        if nodes_of(after).contains(u) && u != next {
            let k = nodes_of(after).index_of(u);
            assert(names[k] == u);
        }
        if u == next {
            assert(nodes_of(after)[top + 1] == next);
        }
    }
    assert forall|u: usize| u < adj.len() implies (#[trigger] new_marks[u as int] == 2
        <==> done.contains(u)) by {
        assert(marks[u as int] == 2 <==> done.contains(u));
    }
    assert forall|a: int, b: int| 0 <= a < b < nodes_of(after).len() implies nodes_of(after)[a]
        != nodes_of(after)[b] by {
        if b == top + 1 {
            assert(names[a] == nodes_of(after)[a]);
        } else {
            assert(names[a] == nodes_of(after)[a] && names[b] == nodes_of(after)[b]);
        }
    }
    assert forall|j: int| 0 <= j < after.len() - 1 implies (#[trigger] after[j]).1 >= 1
        && adj[after[j].0 as int][after[j].1 - 1] == after[j + 1].0 by {
        if j < top {
            assert(after[j] == stack[j]);
            assert(after[j + 1].0 == stack[j + 1].0);
        }
    }
    assert forall|j: int, c: int|
        0 <= j < after.len() && 0 <= c < after[j].1 - (if j < after.len() - 1 {
            1int
        } else {
            0int
        }) implies new_marks[#[trigger] adj[after[j].0 as int][c] as int] == 2 by {
        if j < top {
            assert(after[j] == stack[j]);
            assert(marks[adj[stack[j].0 as int][c] as int] == 2);
        } else if j == top {
            assert(after[j] == (node, (cursor + 1) as usize));
            assert(marks[adj[stack[top].0 as int][c] as int] == 2);
        }
    }
}

proof fn lemma_pass(
    adj: Successors,
    marks: Seq<u8>,
    stack: Seq<(usize, usize)>,
    done: Seq<usize>,
)
    requires
        sound(adj, marks, stack, done),
        stack.len() > 0,
        stack.last().1 < adj[stack.last().0 as int].len(),
        marks[adj[stack.last().0 as int][stack.last().1 as int] as int] == 2,
    ensures
        ({
            let (node, cursor) = stack.last();
            sound(adj, marks, stack.drop_last().push((node, (cursor + 1) as usize)), done)
        }),
{
    let (node, cursor) = stack.last();
    let top = stack.len() - 1;
    assert(stack[top] == stack.last());
    let after = stack.drop_last().push((node, (cursor + 1) as usize));
    assert(nodes_of(after) =~= nodes_of(stack));
    assert forall|j: int| 0 <= j < after.len() - 1 implies (#[trigger] after[j]).1 >= 1
        && adj[after[j].0 as int][after[j].1 - 1] == after[j + 1].0 by {
        assert(after[j] == stack[j]);
        assert(after[j + 1].0 == stack[j + 1].0);
    }
    assert forall|j: int, c: int|
        0 <= j < after.len() && 0 <= c < after[j].1 - (if j < after.len() - 1 {
            1int
        } else {
            0int
        }) implies marks[#[trigger] adj[after[j].0 as int][c] as int] == 2 by {
        if j < top {
            assert(after[j] == stack[j]);
        } else if c < cursor {
            assert(marks[adj[stack[top].0 as int][c] as int] == 2);
        }
    }
}

proof fn lemma_leave(
    adj: Successors,
    marks: Seq<u8>,
    stack: Seq<(usize, usize)>,
    done: Seq<usize>,
)
    requires
        sound(adj, marks, stack, done),
        stack.len() > 0,
        stack.last().1 >= adj[stack.last().0 as int].len(),
    ensures
        sound(
            adj,
            marks.update(stack.last().0 as int, 2),
            stack.drop_last(),
            done.push(stack.last().0),
        ),
{
    let (node, cursor) = stack.last();
    let top = stack.len() - 1;
    assert(stack[top] == stack.last());
    let after = stack.drop_last();
    let new_marks = marks.update(node as int, 2);
    let new_done = done.push(node);
    let names = nodes_of(stack);
    assert(nodes_of(after) =~= names.drop_last());
    assert(names[top] == node);
    assert(names.contains(node));
    assert(marks[node as int] == 1);
    assert(!done.contains(node)) by {
        assert(marks[node as int] == 2 <==> done.contains(node));
    }
    assert forall|u: usize| u < adj.len() implies (#[trigger] new_marks[u as int] == 2
        <==> new_done.contains(u)) by {
        assert(marks[u as int] == 2 <==> done.contains(u));
        if done.contains(u) {
            let k = done.index_of(u);
            assert(new_done[k] == u);
        }
        if u == node {
            assert(new_done[done.len() as int] == u);
        }
        if new_done.contains(u) && u != node {
            let k = new_done.index_of(u);
            assert(done[k] == u);
        }
    }
    assert forall|u: usize| u < adj.len() implies (#[trigger] new_marks[u as int] == 1
        <==> nodes_of(after).contains(u)) by {
        assert(marks[u as int] == 1 <==> names.contains(u));
        if names.contains(u) && u != node {
            let k = names.index_of(u);
            assert(nodes_of(after)[k] == u);
        }
        if nodes_of(after).contains(u) {
            let k = nodes_of(after).index_of(u);
            assert(names[k] == u);
            assert(names[k] != names[top]);
        }
    }
    assert(nodes_of(after).no_duplicates()) by {
        assert forall|a: int, b: int| 0 <= a < b < nodes_of(after).len() implies nodes_of(after)[a]
            != nodes_of(after)[b] by {
            assert(names[a] != names[b]);
        }
    }
    assert(new_done.no_duplicates()) by {
        assert forall|a: int, b: int| 0 <= a < b < new_done.len() implies new_done[a]
            != new_done[b] by {
            if b == done.len() {
                assert(done[a] == new_done[a]);
            } else {
                assert(done[a] != done[b]);
            }
        }
    }
    assert forall|i: int, c: int|
        0 <= i < new_done.len() && 0 <= c < adj[new_done[i] as int].len() implies new_done.take(
        i,
    ).contains(#[trigger] adj[new_done[i] as int][c]) by {
        if i < done.len() {
            assert(new_done.take(i) =~= done.take(i));
            assert(done.take(i).contains(adj[done[i] as int][c]));
        } else {
            assert(new_done.take(i) =~= done);
            let v = adj[stack[top].0 as int][c];
            assert(marks[v as int] == 2);
            assert(done.contains(v));
        }
    }
    assert forall|j: int| 0 <= j < after.len() - 1 implies (#[trigger] after[j]).1 >= 1
        && adj[after[j].0 as int][after[j].1 - 1] == after[j + 1].0 by {
        assert(after[j] == stack[j]);
        assert(after[j + 1] == stack[j + 1]);
    }
    assert forall|j: int, c: int|
        0 <= j < after.len() && 0 <= c < after[j].1 - (if j < after.len() - 1 {
            1int
        } else {
            0int
        }) implies new_marks[#[trigger] adj[after[j].0 as int][c] as int] == 2 by {
        assert(after[j] == stack[j]);
        let v = adj[stack[j].0 as int][c];
        if c < stack[j].1 - 1 {
            assert(marks[v as int] == 2);
        } else {
            assert(v == stack[j + 1].0);
            assert(v == node);
        }
    }
}

/// Searching keeps what holds at every step, and reaches nothing twice.
proof fn lemma_searched(
    adj: Successors,
    marks: Seq<u8>,
    stack: Seq<(usize, usize)>,
    done: Seq<usize>,
)
    requires
        sound(adj, marks, stack, done),
    ensures
        match searched(adj, marks, stack, done) {
            Ok((m, d)) => {
                &&& sound(adj, m, Seq::empty(), d)
                &&& forall|u: int| 0 <= u < adj.len() && marks[u] != 0 ==> #[trigger] m[u] != 0
            },
            Err((u, v)) => closes_cycle(adj, u, v),
        },
    decreases unvisited(marks), edges_left(adj, stack) + stack.len(),
{
    if stack.len() == 0 {
        assert(stack =~= Seq::empty());
    } else {
        let (node, cursor) = stack.last();
        assert(stack[stack.len() - 1] == stack.last());
        if cursor < adj[node as int].len() {
            let next = adj[node as int][cursor as int];
            lemma_edges_left_advance(adj, stack);
            if marks[next as int] == 1 {
                let names = nodes_of(stack);
                assert(names.contains(next));
                let j = names.index_of(next);
                assert(names[j] == next);
                lemma_path_walk(adj, marks, stack, done, j);
                let path = names.skip(j);
                assert(path[0] == next);
                assert(path.last() == node);
                assert(adj[node as int].contains(next));
            } else if marks[next as int] == 0 {
                lemma_unvisited_update(marks, next as int, 1);
                lemma_enter(adj, marks, stack, done);
                lemma_searched(
                    adj,
                    marks.update(next as int, 1),
                    stack.drop_last().push((node, (cursor + 1) as usize)).push((next, 0)),
                    done,
                );
            } else {
                lemma_pass(adj, marks, stack, done);
                lemma_searched(
                    adj,
                    marks,
                    stack.drop_last().push((node, (cursor + 1) as usize)),
                    done,
                );
            }
        } else {
            lemma_unvisited_update(marks, node as int, 2);
            lemma_leave(adj, marks, stack, done);
            lemma_searched(
                adj,
                marks.update(node as int, 2),
                stack.drop_last(),
                done.push(node),
            );
        }
    }
}

proof fn lemma_searched_from(
    adj: Successors,
    marks: Seq<u8>,
    done: Seq<usize>,
    start: int,
)
    requires
        sound(adj, marks, Seq::empty(), done),
        0 <= start <= adj.len(),
        forall|u: int| 0 <= u < start ==> #[trigger] marks[u] != 0,
    ensures
        match searched_from(adj, marks, done, start) {
            Ok(order) => successors_first(adj, order),
            Err((u, v)) => closes_cycle(adj, u, v),
        },
    decreases adj.len() - start,
{
    let empty: Seq<(usize, usize)> = Seq::empty();
    if start >= adj.len() {
        assert forall|u: usize| u < adj.len() implies #[trigger] done.contains(u) by {
            assert(marks[u as int] == 1 <==> nodes_of(empty).contains(u));
            assert(marks[u as int] <= 2);
        }
    } else if marks[start] != 0 {
        lemma_searched_from(adj, marks, done, start + 1);
    } else {
        let node = start as usize;
        let stack = seq![(node, 0usize)];
        let m = marks.update(start, 1);
        assert(nodes_of(stack) =~= seq![node]);
        assert(nodes_of(stack)[0] == node);
        assert forall|u: usize| u < adj.len() implies (#[trigger] m[u as int] == 1 <==> nodes_of(
            stack,
        ).contains(u)) by {
            assert(marks[u as int] == 1 <==> nodes_of(empty).contains(u));
        }
        assert forall|u: usize| u < adj.len() implies (#[trigger] m[u as int] == 2
            <==> done.contains(u)) by {
            assert(marks[u as int] == 2 <==> done.contains(u));
        }
        assert(sound(adj, m, stack, done));
        lemma_searched(adj, m, stack, done);
        match searched(adj, m, stack, done) {
            Ok((m2, d2)) => {
                assert forall|u: int| 0 <= u < start + 1 implies #[trigger] m2[u] != 0 by {
                    assert(m[u] != 0);
                }
                lemma_searched_from(adj, m2, d2, start + 1);
            },
            Err(_) => {},
        }
    }
}

/// A node stands before each node that a walk reaches from it, so no walk
/// returns.
proof fn lemma_order_excludes_cycles(adj: Successors, order: Seq<usize>, path: Seq<usize>, i: int)
    requires
        in_range(adj),
        successors_first(adj, order),
        is_walk(adj, path),
        0 <= i < path.len(),
        path[0] < adj.len(),
    ensures
        path[i] < adj.len(),
        i > 0 ==> order.index_of(path[i]) < order.index_of(path[0]),
    decreases i,
{
    if i > 0 {
        lemma_order_excludes_cycles(adj, order, path, i - 1);
        let u = path[i - 1];
        let v = path[i];
        assert(has_edge(adj, u, path[i - 1 + 1]));
        let c = adj[u as int].index_of(v);
        assert(adj[u as int][c] == v);
        let p = order.index_of(u);
        assert(order.contains(u));
        assert(order[p] == u);
        assert(order.take(p).contains(adj[order[p] as int][c]));
        let q = order.take(p).index_of(v);
        assert(order.take(p)[q] == v);
        assert(order[q] == v);
        let r = order.index_of(v);
        assert(order.contains(v));
        assert(order[r] == v);
        assert(q == r);
    }
}

/// The search decides whether there is a cycle. Without one it puts every node
/// behind its successors; the edge that it reports closes a cycle.
pub proof fn search_decides_cycles(adj: Successors)
    requires
        in_range(adj),
        adj.len() <= usize::MAX,
        forall|u: int| 0 <= u < adj.len() ==> (#[trigger] adj[u]).len() <= usize::MAX,
    ensures
        first_cycle(adj) is Err <==> cyclic(adj),
        match first_cycle(adj) {
            Ok(order) => successors_first(adj, order),
            Err((u, v)) => closes_cycle(adj, u, v),
        },
{
    let marks = Seq::new(adj.len(), |i: int| 0u8);
    let empty: Seq<(usize, usize)> = Seq::empty();
    assert(sound(adj, marks, empty, Seq::empty()));
    lemma_searched_from(adj, marks, Seq::empty(), 0);
    match first_cycle(adj) {
        Ok(order) => {
            if cyclic(adj) {
                let path = choose|path: Seq<usize>|
                    #[trigger] is_walk(adj, path) && path.len() >= 2 && path[0] == path.last();
                assert(has_edge(adj, path[0], path[0int + 1]));
                lemma_order_excludes_cycles(adj, order, path, path.len() - 1);
            }
        },
        Err((u, v)) => {
            let path = choose|path: Seq<usize>|
                #[trigger] is_walk(adj, path) && path[0] == v && path.last() == u;
            let round = path.push(v);
            assert forall|i: int| 0 <= i < round.len() - 1 implies has_edge(
                adj,
                #[trigger] round[i],
                round[i + 1],
            ) by {
                if i < path.len() - 1 {
                    assert(has_edge(adj, path[i], path[i + 1]));
                }
            }
            assert(is_walk(adj, round));
            assert(round[0] == round.last());
        },
    }
}

} // verus!
