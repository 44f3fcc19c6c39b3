//! The rules for a graph that runs on the host thread alone.

use crate::config::{
    executor_views, node_views, ExecutorView, GraphConfig, GraphView, NodeConfig, NodeView,
};
use crate::status::{failure, first_failure, Error, ErrorView};
use crate::supported::refused;
use crate::text::{cat2, cat3, cat4, decimal, decimal_of_size, same};
use vstd::prelude::*;

verus! {

/// What is wrong with a node that the host thread is to run.
pub open spec fn host_node_problem(n: NodeView) -> Option<ErrorView> {
    let at = "node `"@ + n.who();
    if n.max_in_flight > 1 && n.executor.len() == 0 {
        refused(
            at + "`: max_in_flight="@ + decimal(n.max_in_flight as nat)
                + " requires an executor (thread pool) as well -- the default executor is the host main thread, so there is no parallelism"@,
        )
    } else if n.kind.len() != 0 {
        Some(ErrorView::Unsupported(at + "`: type=`"@ + n.kind + "` -- 子图尚未实现"@))
    } else if n.input_policy.kind == "sync"@ || n.input_policy.kind == "immediate"@ {
        None
    } else if n.input_policy.kind == "fixed_size"@ {
        if n.input_policy.capacity == 0 {
            refused(at + "`: fixed_size policy capacity must be >= 1"@)
        } else {
            None
        }
    } else if n.input_policy.kind == "sync_set"@ {
        if n.input_policy.sets.len() == 0 {
            refused(at + "`: sync_set policy must provide sets (input port groups)"@)
        } else {
            None
        }
    } else {
        refused(
            at + "`: 未知 input_policy `"@ + n.input_policy.kind
                + "` (valid: sync / immediate / fixed_size / sync_set)"@,
        )
    }
}

/// The first node that something is wrong with.
pub open spec fn host_nodes_problem(nodes: Seq<NodeView>) -> Option<ErrorView>
    decreases nodes.len(),
{
    if nodes.len() == 0 {
        None
    } else {
        first_failure(host_nodes_problem(nodes.drop_last()), host_node_problem(nodes.last()))
    }
}

/// The first executor that is no thread pool.
pub open spec fn host_pools_problem(executors: Seq<ExecutorView>) -> Option<ErrorView>
    decreases executors.len(),
{
    if executors.len() == 0 {
        None
    } else {
        first_failure(
            host_pools_problem(executors.drop_last()),
            if executors.last().kind != "ThreadPoolExecutor"@ && executors.last().kind.len() != 0 {
                refused(
                    "unknown executor type `"@ + executors.last().kind
                        + "` (only ThreadPoolExecutor is currently supported)"@,
                )
            } else {
                None
            },
        )
    }
}

/// The first thing in a configuration that the host thread cannot run.
pub open spec fn host_problem(g: GraphView) -> Option<ErrorView> {
    first_failure(host_nodes_problem(g.nodes), host_pools_problem(g.executors))
}

proof fn lemma_host_nodes_prefix(nodes: Seq<NodeView>, k: int)
    requires
        0 <= k <= nodes.len(),
        host_nodes_problem(nodes.take(k)) is Some,
    ensures
        host_nodes_problem(nodes) == host_nodes_problem(nodes.take(k)),
    decreases nodes.len() - k,
{
    if k < nodes.len() {
        assert(nodes.take(k + 1).drop_last() =~= nodes.take(k));
        lemma_host_nodes_prefix(nodes, k + 1);
    } else {
        assert(nodes.take(k) =~= nodes);
    }
}

proof fn lemma_host_pools_prefix(executors: Seq<ExecutorView>, k: int)
    requires
        0 <= k <= executors.len(),
        host_pools_problem(executors.take(k)) is Some,
    ensures
        host_pools_problem(executors) == host_pools_problem(executors.take(k)),
    decreases executors.len() - k,
{
    if k < executors.len() {
        assert(executors.take(k + 1).drop_last() =~= executors.take(k));
        lemma_host_pools_prefix(executors, k + 1);
    } else {
        assert(executors.take(k) =~= executors);
    }
}

/// Refuses a node that the host thread cannot run.
fn check_host_node(n: &NodeConfig) -> (r: Result<(), Error>)
    ensures
        failure(r) == host_node_problem(n@),
{
    let who = if n.name.as_str().is_empty() {
        n.kernel.as_str()
    } else {
        n.name.as_str()
    };
    let at = cat2("node `", who);
    if n.max_in_flight > 1 && n.executor.as_str().is_empty() {
        return Err(
            Error::InvalidArg(
                cat4(
                    at.as_str(),
                    "`: max_in_flight=",
                    decimal_of_size(n.max_in_flight).as_str(),
                    " requires an executor (thread pool) as well -- the default executor is the host main thread, so there is no parallelism",
                ),
            ),
        );
    }
    if !n.kind.as_str().is_empty() {
        return Err(
            Error::Unsupported(
                cat4(at.as_str(), "`: type=`", n.kind.as_str(), "` -- 子图尚未实现"),
            ),
        );
    }
    let policy = n.input_policy.kind.as_str();
    if same(policy, "sync") || same(policy, "immediate") {
        return Ok(());
    }
    if same(policy, "fixed_size") {
        if n.input_policy.capacity == 0 {
            return Err(
                Error::InvalidArg(cat2(at.as_str(), "`: fixed_size policy capacity must be >= 1")),
            );
        }
        return Ok(());
    }
    if same(policy, "sync_set") {
        if n.input_policy.sets.len() == 0 {
            return Err(
                Error::InvalidArg(
                    cat2(at.as_str(), "`: sync_set policy must provide sets (input port groups)"),
                ),
            );
        }
        return Ok(());
    }
    Err(
        Error::InvalidArg(
            cat4(
                at.as_str(),
                "`: 未知 input_policy `",
                policy,
                "` (valid: sync / immediate / fixed_size / sync_set)",
            ),
        ),
    )
}

impl GraphConfig {
    /// Refuses a configuration that the host thread cannot run.
    pub fn check_host_supported(&self) -> (r: Result<(), Error>)
        ensures
            failure(r) == host_problem(self@),
    {
        let ghost nodes = node_views(self.nodes@);
        assert(nodes.take(0) =~= Seq::empty());
        for i in 0..self.nodes.len()
            invariant
                nodes == node_views(self.nodes@),
                host_nodes_problem(nodes.take(i as int)) is None,
        {
            proof {
                assert(nodes.take(i + 1).drop_last() =~= nodes.take(i as int));
                assert(nodes.take(i + 1).last() == self.nodes@[i as int]@);
            }
            match check_host_node(&self.nodes[i]) {
                Ok(()) => {},
                Err(e) => {
                    proof {
                        lemma_host_nodes_prefix(nodes, i + 1);
                    }
                    return Err(e);
                },
            }
        }
        assert(nodes.take(nodes.len() as int) =~= nodes);
        let ghost pools = executor_views(self.executors@);
        assert(pools.take(0) =~= Seq::empty());
        for i in 0..self.executors.len()
            invariant
                nodes == node_views(self.nodes@),
                pools == executor_views(self.executors@),
                host_nodes_problem(nodes) is None,
                host_pools_problem(pools.take(i as int)) is None,
        {
            proof {
                assert(pools.take(i + 1).drop_last() =~= pools.take(i as int));
                assert(pools.take(i + 1).last() == self.executors@[i as int]@);
            }
            let kind = self.executors[i].kind.as_str();
            if !same(kind, "ThreadPoolExecutor") && !kind.is_empty() {
                proof {
                    lemma_host_pools_prefix(pools, i + 1);
                }
                return Err(
                    Error::InvalidArg(
                        cat3(
                            "unknown executor type `",
                            kind,
                            "` (only ThreadPoolExecutor is currently supported)",
                        ),
                    ),
                );
            }
        }
        assert(pools.take(pools.len() as int) =~= pools);
        Ok(())
    }
}

/// A configuration that the host thread can run has no node that is an
/// instance of a subgraph, none that asks for parallel calls without a pool
/// and none that drops every packet.
pub proof fn host_graphs_are_simple(g: GraphView, i: int)
    requires
        host_problem(g) is None,
        0 <= i < g.nodes.len(),
    ensures
        g.nodes[i].kind.len() == 0,
        g.nodes[i].max_in_flight > 1 ==> g.nodes[i].executor.len() > 0,
        g.nodes[i].input_policy.kind == "fixed_size"@ ==> g.nodes[i].input_policy.capacity >= 1,
{
    lemma_host_node_at(g.nodes, i);
    reveal_strlit("sync");
    reveal_strlit("immediate");
    reveal_strlit("fixed_size");
    assert("sync"@.len() == 4 && "immediate"@.len() == 9 && "fixed_size"@.len() == 10);
}

proof fn lemma_host_node_at(nodes: Seq<NodeView>, i: int)
    requires
        host_nodes_problem(nodes) is None,
        0 <= i < nodes.len(),
    ensures
        host_node_problem(nodes[i]) is None,
    decreases nodes.len(),
{
    if i < nodes.len() - 1 {
        lemma_host_node_at(nodes.drop_last(), i);
    }
}

} // verus!
