//! The rules on executors and on the nodes that run on them.

use crate::config::{
    executor_views, ExecutorConfig, ExecutorView, GraphConfig, GraphView, NodeConfig, NodeView,
};
use crate::diagnostic::{candidates_of, did_you_mean, hint};
use crate::port::{names_of, parse_ports, port_list, port_names};
use crate::status::{failure, first_failure, Error, ErrorView};
use crate::supported::{is_executor_kind, node_place, refused};
use crate::text::{
    cat2, cat3, cat4, cat5, cat6, contains_text, decimal, decimal_of_size, less, same, text_less,
    text_less_irreflexive, text_less_total, text_less_transitive, texts,
};
use vstd::prelude::*;

verus! {

impl NodeView {
    /// Where the node was written down.
    pub open spec fn path(self, index: nat) -> Seq<char> {
        if self.source_path.len() == 0 {
            node_place(index)
        } else if self.name.len() == 0 {
            self.source_path
        } else {
            self.source_path + " (expanded node `"@ + self.name + "`)"@
        }
    }
}

/// Where a node was written down.
pub fn diagnostic_node_path(node: &NodeConfig, index: usize) -> (r: String)
    ensures
        r@ == node@.path(index as nat),
{
    if node.source_path.as_str().is_empty() {
        let number = decimal_of_size(index);
        cat3("nodes[", number.as_str(), "]")
    } else if node.name.as_str().is_empty() {
        node.source_path.clone()
    } else {
        cat4(
            node.source_path.as_str(),
            " (expanded node `",
            node.name.as_str(),
            "`)",
        )
    }
}

// ------------------------------------------------------------------ executors

/// The names of a list of executors.
pub open spec fn executor_names(executors: Seq<ExecutorView>) -> Seq<Seq<char>> {
    Seq::new(executors.len(), |i: int| executors[i].name)
}

/// What is wrong with executor `index`, given the names of those before it.
pub open spec fn executor_problem(e: ExecutorView, index: nat, earlier: Seq<Seq<char>>) -> Option<
    ErrorView,
> {
    let place = "executors["@ + decimal(index) + "]"@;
    if e.name.len() == 0 {
        refused(
            place
                + ".name: executor entry must have a name; nodes select an executor by it"@,
        )
    } else if e.name == "default"@ {
        refused(place + ".name: `default` is reserved for the implicit executor"@)
    } else if earlier.contains(e.name) {
        refused(place + ".name: executor `"@ + e.name + "` defined more than once"@)
    } else if !is_executor_kind(e.kind) {
        refused(place + ".type: unknown executor type `"@ + e.kind + "`"@)
    } else if e.kind == "DelegatingExecutor"@ && (e.num_threads != 0 || e.affinity.len() != 0
        || e.priority != 0) {
        refused(
            place
                + ": DelegatingExecutor owns no threads, so `num_threads`, `affinity`, and `priority` are meaningless; drop those fields or use type: \"ThreadPoolExecutor\""@,
        )
    } else {
        None
    }
}

/// The first thing that is wrong with a list of executors.
pub open spec fn executor_list_problem(executors: Seq<ExecutorView>) -> Option<ErrorView>
    decreases executors.len(),
{
    if executors.len() == 0 {
        None
    } else {
        first_failure(
            executor_list_problem(executors.drop_last()),
            executor_problem(
                executors.last(),
                (executors.len() - 1) as nat,
                executor_names(executors.drop_last()),
            ),
        )
    }
}

proof fn lemma_executor_list_prefix(executors: Seq<ExecutorView>, k: int)
    requires
        0 <= k <= executors.len(),
        executor_list_problem(executors.take(k)) is Some,
    ensures
        executor_list_problem(executors) == executor_list_problem(executors.take(k)),
    decreases executors.len() - k,
{
    if k < executors.len() {
        assert(executors.take(k + 1).drop_last() =~= executors.take(k));
        lemma_executor_list_prefix(executors, k + 1);
    } else {
        assert(executors.take(k) =~= executors);
    }
}

fn check_executor(e: &ExecutorConfig, index: usize, earlier: &Vec<String>) -> (r: Result<
    (),
    Error,
>)
    ensures
        failure(r) == executor_problem(e@, index as nat, texts(earlier@)),
{
    let number = decimal_of_size(index);
    let place = cat3("executors[", number.as_str(), "]");
    if e.name.as_str().is_empty() {
        return Err(
            Error::InvalidArg(
                cat2(
                    place.as_str(),
                    ".name: executor entry must have a name; nodes select an executor by it",
                ),
            ),
        );
    }
    if same(e.name.as_str(), "default") {
        return Err(
            Error::InvalidArg(
                cat2(place.as_str(), ".name: `default` is reserved for the implicit executor"),
            ),
        );
    }
    if contains_text(earlier, e.name.as_str()) {
        return Err(
            Error::InvalidArg(
                cat4(
                    place.as_str(),
                    ".name: executor `",
                    e.name.as_str(),
                    "` defined more than once",
                ),
            ),
        );
    }
    let kind = e.kind.as_str();
    if !(kind.is_empty() || same(kind, "ThreadPoolExecutor") || same(kind, "DelegatingExecutor")) {
        return Err(
            Error::InvalidArg(cat4(place.as_str(), ".type: unknown executor type `", kind, "`")),
        );
    }
    if same(kind, "DelegatingExecutor") && (e.num_threads != 0 || !e.affinity.is_empty()
        || e.priority != 0) {
        return Err(
            Error::InvalidArg(
                cat2(
                    place.as_str(),
                    ": DelegatingExecutor owns no threads, so `num_threads`, `affinity`, and `priority` are meaningless; drop those fields or use type: \"ThreadPoolExecutor\"",
                ),
            ),
        );
    }
    Ok(())
}

fn check_executors(executors: &Vec<ExecutorConfig>) -> (r: Result<Vec<String>, Error>)
    ensures
        failure(r) == executor_list_problem(executor_views(executors@)),
        r matches Ok(names) ==> texts(names@) == executor_names(
            executor_views(executors@),
        ),
{
    let ghost all = executor_views(executors@);
    let mut names: Vec<String> = Vec::new();
    assert(all.take(0) =~= Seq::empty());
    assert(texts(names@) =~= executor_names(all.take(0)));
    for i in 0..executors.len()
        invariant
            all == executor_views(executors@),
            texts(names@) == executor_names(all.take(i as int)),
            executor_list_problem(all.take(i as int)) is None,
    {
        let ghost done = texts(names@);
        proof {
            assert(all.take(i + 1).drop_last() =~= all.take(i as int));
            assert(all.take(i + 1).last() == executors@[i as int]@);
        }
        match check_executor(&executors[i], i, &names) {
            Ok(()) => {},
            Err(e) => {
                proof {
                    lemma_executor_list_prefix(all, i + 1);
                }
                return Err(e);
            },
        }
        names.push(executors[i].name.clone());
        assert(texts(names@) =~= done.push(executors@[i as int].name@));
        assert(texts(names@) =~= executor_names(all.take(i + 1)));
    }
    assert(all.take(all.len() as int) =~= all);
    Ok(names)
}

// ------------------------------------------------------------ nodes: executors

/// The position of the first executor with that name.
pub open spec fn executor_position(executors: Seq<ExecutorView>, name: Seq<char>) -> Option<nat>
    decreases executors.len(),
{
    if executors.len() == 0 {
        None
    } else if executor_position(executors.drop_last(), name) is Some {
        executor_position(executors.drop_last(), name)
    } else if executors.last().name == name {
        Some((executors.len() - 1) as nat)
    } else {
        None
    }
}

/// The number of threads that a node can run on: those of the machine for the
/// default executor, else those of the executor it names, at least one.
pub open spec fn threads_for(n: NodeView, executors: Seq<ExecutorView>, parallelism: usize) -> usize {
    if n.executor.len() == 0 {
        parallelism
    } else {
        match executor_position(executors, n.executor) {
            Some(i) => if executors[i as int].num_threads == 0 {
                1
            } else {
                executors[i as int].num_threads
            },
            None => 1,
        }
    }
}

/// What is wrong with the executor that a node names or with how often it may
/// run at once.
pub open spec fn node_executor_problem(
    n: NodeView,
    index: nat,
    executors: Seq<ExecutorView>,
    parallelism: usize,
) -> Option<ErrorView> {
    let names = executor_names(executors);
    let threads = threads_for(n, executors, parallelism);
    if n.executor.len() != 0 && !names.contains(n.executor) {
        refused(
            n.path(index) + ".executor: undefined executor `"@ + n.executor + "`"@ + hint(
                n.executor,
                names,
            ),
        )
    } else if n.max_in_flight > 1 && threads < 2 {
        refused(
            n.path(index) + ".max_in_flight="@ + decimal(n.max_in_flight as nat)
                + " needs an executor with more than one thread, but the selected executor provides "@
                + decimal(threads as nat) + " -- there would be no parallelism"@,
        )
    } else {
        None
    }
}

/// The first node with such a problem.
pub open spec fn node_executors_problem(
    nodes: Seq<NodeView>,
    executors: Seq<ExecutorView>,
    parallelism: usize,
) -> Option<ErrorView>
    decreases nodes.len(),
{
    if nodes.len() == 0 {
        None
    } else {
        first_failure(
            node_executors_problem(nodes.drop_last(), executors, parallelism),
            node_executor_problem(
                nodes.last(),
                (nodes.len() - 1) as nat,
                executors,
                parallelism,
            ),
        )
    }
}

proof fn lemma_node_executors_prefix(
    nodes: Seq<NodeView>,
    executors: Seq<ExecutorView>,
    parallelism: usize,
    k: int,
)
    requires
        0 <= k <= nodes.len(),
        node_executors_problem(nodes.take(k), executors, parallelism) is Some,
    ensures
        node_executors_problem(nodes, executors, parallelism) == node_executors_problem(
            nodes.take(k),
            executors,
            parallelism,
        ),
    decreases nodes.len() - k,
{
    if k < nodes.len() {
        assert(nodes.take(k + 1).drop_last() =~= nodes.take(k));
        lemma_node_executors_prefix(nodes, executors, parallelism, k + 1);
    } else {
        assert(nodes.take(k) =~= nodes);
    }
}

proof fn lemma_position_prefix(executors: Seq<ExecutorView>, name: Seq<char>, k: int)
    requires
        0 <= k <= executors.len(),
        executor_position(executors.take(k), name) is Some,
    ensures
        executor_position(executors, name) == executor_position(executors.take(k), name),
    decreases executors.len() - k,
{
    if k < executors.len() {
        assert(executors.take(k + 1).drop_last() =~= executors.take(k));
        lemma_position_prefix(executors, name, k + 1);
    } else {
        assert(executors.take(k) =~= executors);
    }
}

/// A named executor has a position, and stands there.
pub proof fn executor_position_found(executors: Seq<ExecutorView>, name: Seq<char>)
    ensures
        executor_position(executors, name) is Some <==> executor_names(executors).contains(name),
        executor_position(executors, name) matches Some(i) ==> i < executors.len()
            && executors[i as int].name == name,
    decreases executors.len(),
{
    if executors.len() > 0 {
        let front = executors.drop_last();
        executor_position_found(front, name);
        let all = executor_names(executors);
        if executor_names(front).contains(name) {
            let i = executor_names(front).index_of(name);
            assert(all[i] == name);
        }
        if executors.last().name == name {
            assert(all[executors.len() - 1] == name);
        }
        if all.contains(name) && executors.last().name != name {
            let i = all.index_of(name);
            assert(executor_names(front)[i] == name);
        }
    }
}

/// The position of the first executor with that name.
pub fn find_executor(executors: &Vec<ExecutorConfig>, name: &str) -> (r: Option<usize>)
    ensures
        match r {
            Some(i) => i < executors@.len() && executor_position(
                executor_views(executors@),
                name@,
            ) == Some(i as nat),
            None => executor_position(executor_views(executors@), name@) is None,
        },
{
    let ghost all = executor_views(executors@);
    assert(all.take(0) =~= Seq::empty());
    for i in 0..executors.len()
        invariant
            all == executor_views(executors@),
            executor_position(all.take(i as int), name@) is None,
    {
        proof {
            assert(all.take(i + 1).drop_last() =~= all.take(i as int));
            assert(all.take(i + 1).last() == executors@[i as int]@);
        }
        if same(executors[i].name.as_str(), name) {
            proof {
                lemma_position_prefix(all, name@, i + 1);
            }
            return Some(i);
        }
    }
    assert(all.take(all.len() as int) =~= all);
    None
}

fn check_node_executor(
    n: &NodeConfig,
    index: usize,
    executors: &Vec<ExecutorConfig>,
    names: &Vec<String>,
    parallelism: usize,
) -> (r: Result<(), Error>)
    requires
        texts(names@) == executor_names(executor_views(executors@)),
    ensures
        failure(r) == node_executor_problem(
            n@,
            index as nat,
            executor_views(executors@),
            parallelism,
        ),
{
    let path = diagnostic_node_path(n, index);
    let executor = n.executor.as_str();
    if !executor.is_empty() && !contains_text(names, executor) {
        let candidates = candidates_of(names);
        let suggestion = did_you_mean(executor, &candidates);
        return Err(
            Error::InvalidArg(
                cat5(
                    path.as_str(),
                    ".executor: undefined executor `",
                    executor,
                    "`",
                    suggestion.as_str(),
                ),
            ),
        );
    }
    if n.max_in_flight > 1 {
        let threads: usize = if executor.is_empty() {
            parallelism
        } else {
            match find_executor(executors, executor) {
                Some(i) => if executors[i].num_threads == 0 {
                    1
                } else {
                    executors[i].num_threads
                },
                None => 1,
            }
        };
        if threads < 2 {
            let wanted = decimal_of_size(n.max_in_flight);
            let provided = decimal_of_size(threads);
            return Err(
                Error::InvalidArg(
                    cat6(
                        path.as_str(),
                        ".max_in_flight=",
                        wanted.as_str(),
                        " needs an executor with more than one thread, but the selected executor provides ",
                        provided.as_str(),
                        " -- there would be no parallelism",
                    ),
                ),
            );
        }
    }
    Ok(())
}

// ---------------------------------------------------------- nodes: input groups

/// The names in a list of groups, one group after the other.
pub open spec fn flat(sets: Seq<Seq<Seq<char>>>) -> Seq<Seq<char>>
    decreases sets.len(),
{
    if sets.len() == 0 {
        Seq::empty()
    } else {
        flat(sets.drop_last()) + sets.last()
    }
}

/// The first name of a group that is no port or that was seen before.
pub open spec fn members_problem(
    group: Seq<Seq<char>>,
    ports: Seq<Seq<char>>,
    seen: Seq<Seq<char>>,
    place: Seq<char>,
) -> Option<ErrorView>
    decreases group.len(),
{
    if group.len() == 0 {
        None
    } else {
        let name = group.last();
        first_failure(
            members_problem(group.drop_last(), ports, seen, place),
            if !ports.contains(name) {
                refused(place + ": unknown input port `"@ + name + "`"@)
            } else if (seen + group.drop_last()).contains(name) {
                refused(place + ": input port `"@ + name + "` appears in multiple groups"@)
            } else {
                None
            },
        )
    }
}

/// The first group that is empty or has a wrong name.
pub open spec fn groups_problem(
    sets: Seq<Seq<Seq<char>>>,
    ports: Seq<Seq<char>>,
    path: Seq<char>,
) -> Option<ErrorView>
    decreases sets.len(),
{
    if sets.len() == 0 {
        None
    } else {
        let place = path + ".input_policy.sets["@ + decimal((sets.len() - 1) as nat) + "]"@;
        first_failure(
            groups_problem(sets.drop_last(), ports, path),
            if sets.last().len() == 0 {
                refused(place + ": group must not be empty"@)
            } else {
                members_problem(sets.last(), ports, flat(sets.drop_last()), place)
            },
        )
    }
}

/// Whether `name` is the first in order of the ports that are in no group.
pub open spec fn first_ungrouped(
    name: Seq<char>,
    ports: Seq<Seq<char>>,
    grouped: Seq<Seq<char>>,
) -> bool {
    &&& ports.contains(name)
    &&& !grouped.contains(name)
    &&& forall|i: int|
        0 <= i < ports.len() && !grouped.contains(#[trigger] ports[i]) ==> ports[i] == name
            || text_less(name, ports[i])
}

/// What is wrong with the groups of the input ports of a node: together they
/// hold each port once.
pub open spec fn grouping_problem(n: NodeView, path: Seq<char>) -> Option<ErrorView> {
    match port_list(n.input_ports) {
        Err((_, e)) => Some(e),
        Ok(list) => {
            let ports = port_names(list);
            let sets = n.input_policy.sets;
            if groups_problem(sets, ports, path) is Some {
                groups_problem(sets, ports, path)
            } else if exists|name: Seq<char>| first_ungrouped(name, ports, flat(sets)) {
                let name = choose|name: Seq<char>| first_ungrouped(name, ports, flat(sets));
                refused(
                    path + ".input_policy.sets: input port `"@ + name
                        + "` is not assigned to a group"@,
                )
            } else {
                None
            }
        },
    }
}

proof fn lemma_members_prefix(
    group: Seq<Seq<char>>,
    ports: Seq<Seq<char>>,
    seen: Seq<Seq<char>>,
    place: Seq<char>,
    k: int,
)
    requires
        0 <= k <= group.len(),
        members_problem(group.take(k), ports, seen, place) is Some,
    ensures
        members_problem(group, ports, seen, place) == members_problem(
            group.take(k),
            ports,
            seen,
            place,
        ),
    decreases group.len() - k,
{
    if k < group.len() {
        assert(group.take(k + 1).drop_last() =~= group.take(k));
        lemma_members_prefix(group, ports, seen, place, k + 1);
    } else {
        assert(group.take(k) =~= group);
    }
}

proof fn lemma_groups_prefix(
    sets: Seq<Seq<Seq<char>>>,
    ports: Seq<Seq<char>>,
    path: Seq<char>,
    k: int,
)
    requires
        0 <= k <= sets.len(),
        groups_problem(sets.take(k), ports, path) is Some,
    ensures
        groups_problem(sets, ports, path) == groups_problem(sets.take(k), ports, path),
    decreases sets.len() - k,
{
    if k < sets.len() {
        assert(sets.take(k + 1).drop_last() =~= sets.take(k));
        lemma_groups_prefix(sets, ports, path, k + 1);
    } else {
        assert(sets.take(k) =~= sets);
    }
}

/// Checks the names of a group and adds them to those seen.
fn check_members(group: &Vec<String>, ports: &Vec<String>, seen: &mut Vec<String>, place: &str) -> (r:
    Result<(), Error>)
    ensures
        failure(r) == members_problem(
            texts(group@),
            texts(ports@),
            texts(old(seen)@),
            place@,
        ),
        r is Ok ==> texts(final(seen)@) == texts(old(seen)@) + texts(group@),
{
    let ghost names = texts(group@);
    let ghost before = texts(seen@);
    assert(names.take(0) =~= Seq::empty());
    assert(before + names.take(0) =~= before);
    for i in 0..group.len()
        invariant
            names == texts(group@),
            before == texts(old(seen)@),
            texts(seen@) == before + names.take(i as int),
            members_problem(names.take(i as int), texts(ports@), before, place@) is None,
    {
        let name = group[i].as_str();
        let ghost so_far = texts(seen@);
        proof {
            assert(names.take(i + 1).drop_last() =~= names.take(i as int));
            assert(names.take(i + 1).last() == name@);
        }
        if !contains_text(ports, name) {
            proof {
                lemma_members_prefix(names, texts(ports@), before, place@, i + 1);
            }
            return Err(Error::InvalidArg(cat4(place, ": unknown input port `", name, "`")));
        }
        if contains_text(seen, name) {
            proof {
                lemma_members_prefix(names, texts(ports@), before, place@, i + 1);
            }
            return Err(
                Error::InvalidArg(
                    cat4(place, ": input port `", name, "` appears in multiple groups"),
                ),
            );
        }
        seen.push(group[i].clone());
        assert(texts(seen@) =~= so_far.push(name@));
        assert(before + names.take(i + 1) =~= (before + names.take(i as int)).push(name@));
    }
    assert(names.take(names.len() as int) =~= names);
    Ok(())
}

/// The first in order of the ports that are in no group.
fn find_ungrouped(ports: &Vec<String>, grouped: &Vec<String>) -> (r: Option<usize>)
    ensures
        match r {
            Some(i) => i < ports@.len() && first_ungrouped(
                ports@[i as int]@,
                texts(ports@),
                texts(grouped@),
            ),
            None => forall|k: int|
                0 <= k < ports@.len() ==> texts(grouped@).contains(#[trigger] texts(ports@)[k]),
        },
{
    let mut found: Option<usize> = None;
    let ghost all = texts(ports@);
    let ghost taken = texts(grouped@);
    for i in 0..ports.len()
        invariant
            all == texts(ports@),
            taken == texts(grouped@),
            match found {
                Some(b) => {
                    &&& b < i
                    &&& !taken.contains(all[b as int])
                    &&& forall|k: int|
                        0 <= k < i && !taken.contains(#[trigger] all[k]) ==> all[k] == all[b as int]
                            || text_less(all[b as int], all[k])
                },
                None => forall|k: int| 0 <= k < i ==> taken.contains(#[trigger] all[k]),
            },
    {
        let name = ports[i].as_str();
        assert(all[i as int] == name@);
        if !contains_text(grouped, name) {
            match found {
                Some(b) => {
                    assert(all[b as int] == ports@[b as int]@);
                    if less(name, ports[b].as_str()) {
                        assert forall|k: int|
                            0 <= k < i + 1 && !taken.contains(#[trigger] all[k]) implies all[k]
                            == name@ || text_less(name@, all[k]) by {
                            if k < i && all[k] != all[b as int] {
                                text_less_transitive(name@, all[b as int], all[k]);
                            }
                        }
                        found = Some(i);
                    } else {
                        proof {
                            text_less_total(name@, all[b as int]);
                        }
                    }
                },
                None => {
                    found = Some(i);
                },
            }
        }
    }
    proof {
        if let Some(b) = found {
            assert(all.contains(all[b as int]));
        }
    }
    found
}

/// Refuses groups of input ports that do not hold each port once.
pub fn check_grouping(n: &NodeConfig, path: &str) -> (r: Result<(), Error>)
    ensures
        failure(r) == grouping_problem(n@, path@),
{
    let ports = match parse_ports(&n.input_ports) {
        Ok(list) => names_of(&list),
        Err((_, e)) => {
            return Err(e);
        },
    };
    let sets = &n.input_policy.sets;
    let ghost groups = n@.input_policy.sets;
    let ghost names = texts(ports@);
    let mut seen: Vec<String> = Vec::new();
    assert(groups.take(0) =~= Seq::empty());
    assert(texts(seen@) =~= flat(groups.take(0)));
    for i in 0..sets.len()
        invariant
            *sets == n.input_policy.sets,
            groups == n@.input_policy.sets,
            names == texts(ports@),
            port_list(n@.input_ports) is Ok,
            names == port_names(port_list(n@.input_ports)->Ok_0),
            texts(seen@) == flat(groups.take(i as int)),
            groups_problem(groups.take(i as int), names, path@) is None,
    {
        proof {
            assert(groups.take(i + 1).drop_last() =~= groups.take(i as int));
            assert(groups.take(i + 1).last() == texts(sets@[i as int]@));
        }
        let number = decimal_of_size(i);
        let place = cat4(path, ".input_policy.sets[", number.as_str(), "]");
        if sets[i].is_empty() {
            proof {
                lemma_groups_prefix(groups, names, path@, i + 1);
            }
            return Err(Error::InvalidArg(cat2(place.as_str(), ": group must not be empty")));
        }
        match check_members(&sets[i], &ports, &mut seen, place.as_str()) {
            Ok(()) => {},
            Err(e) => {
                proof {
                    lemma_groups_prefix(groups, names, path@, i + 1);
                }
                return Err(e);
            },
        }
    }
    assert(groups.take(groups.len() as int) =~= groups);
    match find_ungrouped(&ports, &seen) {
        Some(i) => {
            let name = ports[i].as_str();
            proof {
                let chosen = choose|x: Seq<char>| first_ungrouped(x, names, flat(groups));
                let p = names.index_of(chosen);
                let q = names.index_of(name@);
                assert(names[p] == chosen && names[q] == name@);
                if chosen != name@ {
                    text_less_transitive(chosen, name@, chosen);
                    text_less_irreflexive(chosen);
                }
            }
            Err(
                Error::InvalidArg(
                    cat4(
                        path,
                        ".input_policy.sets: input port `",
                        name,
                        "` is not assigned to a group",
                    ),
                ),
            )
        },
        None => {
            proof {
                assert forall|x: Seq<char>| !first_ungrouped(x, names, flat(groups)) by {
                    if first_ungrouped(x, names, flat(groups)) {
                        let p = names.index_of(x);
                        assert(names[p] == x);
                    }
                }
            }
            Ok(())
        },
    }
}

proof fn lemma_members_hold(
    group: Seq<Seq<char>>,
    ports: Seq<Seq<char>>,
    seen: Seq<Seq<char>>,
    place: Seq<char>,
)
    requires
        members_problem(group, ports, seen, place) is None,
        seen.no_duplicates(),
        forall|i: int| 0 <= i < seen.len() ==> ports.contains(#[trigger] seen[i]),
    ensures
        (seen + group).no_duplicates(),
        forall|i: int|
            0 <= i < (seen + group).len() ==> ports.contains(#[trigger] (seen + group)[i]),
    decreases group.len(),
{
    if group.len() == 0 {
        assert(seen + group =~= seen);
    } else {
        let front = seen + group.drop_last();
        lemma_members_hold(group.drop_last(), ports, seen, place);
        assert(seen + group =~= front.push(group.last()));
        assert forall|i: int, j: int| 0 <= i < j < (seen + group).len() implies (seen + group)[i]
            != (seen + group)[j] by {
            assert((seen + group)[i] == front[i]);
        }
    }
}

proof fn lemma_groups_hold(sets: Seq<Seq<Seq<char>>>, ports: Seq<Seq<char>>, path: Seq<char>)
    requires
        groups_problem(sets, ports, path) is None,
    ensures
        flat(sets).no_duplicates(),
        forall|i: int| 0 <= i < flat(sets).len() ==> ports.contains(#[trigger] flat(sets)[i]),
        forall|i: int| 0 <= i < sets.len() ==> (#[trigger] sets[i]).len() > 0,
    decreases sets.len(),
{
    if sets.len() > 0 {
        let front = sets.drop_last();
        lemma_groups_hold(front, ports, path);
        let place = path + ".input_policy.sets["@ + decimal((sets.len() - 1) as nat) + "]"@;
        lemma_members_hold(sets.last(), ports, flat(front), place);
        assert forall|i: int| 0 <= i < sets.len() implies (#[trigger] sets[i]).len() > 0 by {
            if i < front.len() {
                assert(front[i] == sets[i]);
            }
        }
    }
}

/// Whether there is a first among the ports of a list that are in no group.
proof fn lemma_some_port_is_first(ports: Seq<Seq<char>>, grouped: Seq<Seq<char>>)
    ensures
        (forall|i: int| 0 <= i < ports.len() ==> grouped.contains(#[trigger] ports[i])) || exists|
            name: Seq<char>,
        | first_ungrouped(name, ports, grouped),
    decreases ports.len(),
{
    if ports.len() > 0 {
        let front = ports.drop_last();
        let last = ports.last();
        lemma_some_port_is_first(front, grouped);
        assert(ports[ports.len() - 1] == last);
        assert forall|i: int| 0 <= i < front.len() implies front[i] == #[trigger] ports[i] by {}
        if forall|i: int| 0 <= i < front.len() ==> grouped.contains(#[trigger] front[i]) {
            if !grouped.contains(last) {
                assert forall|i: int|
                    0 <= i < ports.len() && !grouped.contains(#[trigger] ports[i]) implies ports[i]
                    == last || text_less(last, ports[i]) by {
                    if i < front.len() {
                        assert(grouped.contains(front[i]));
                    }
                }
                assert(first_ungrouped(last, ports, grouped));
            } else {
                assert forall|i: int| 0 <= i < ports.len() implies grouped.contains(
                    #[trigger] ports[i],
                ) by {
                    if i < front.len() {
                        assert(grouped.contains(front[i]));
                    }
                }
            }
        } else {
            let name = choose|name: Seq<char>| first_ungrouped(name, front, grouped);
            let at = front.index_of(name);
            assert(ports[at] == name);
            text_less_total(last, name);
            if !grouped.contains(last) && text_less(last, name) {
                assert forall|i: int|
                    0 <= i < ports.len() && !grouped.contains(#[trigger] ports[i]) implies ports[i]
                    == last || text_less(last, ports[i]) by {
                    if i < front.len() && front[i] != name {
                        text_less_transitive(last, name, front[i]);
                    }
                }
                assert(first_ungrouped(last, ports, grouped));
            } else {
                assert forall|i: int|
                    0 <= i < ports.len() && !grouped.contains(#[trigger] ports[i]) implies ports[i]
                    == name || text_less(name, ports[i]) by {
                    if i < front.len() {
                        assert(ports[i] == front[i]);
                    }
                }
                assert(first_ungrouped(name, ports, grouped));
            }
        }
    }
}

/// Groups that are not refused divide the input ports among them: none is
/// empty, each names ports only, and each port is named once.
pub proof fn groups_divide_the_ports(n: NodeView, path: Seq<char>)
    requires
        grouping_problem(n, path) is None,
    ensures
        ({
            let ports = port_names(port_list(n.input_ports)->Ok_0);
            let sets = n.input_policy.sets;
            &&& port_list(n.input_ports) is Ok
            &&& forall|i: int| 0 <= i < sets.len() ==> (#[trigger] sets[i]).len() > 0
            &&& flat(sets).no_duplicates()
            &&& forall|name: Seq<char>| #[trigger]
                flat(sets).contains(name) <==> ports.contains(name)
        }),
{
    let ports = port_names(port_list(n.input_ports)->Ok_0);
    let sets = n.input_policy.sets;
    lemma_groups_hold(sets, ports, path);
    lemma_some_port_is_first(ports, flat(sets));
    assert forall|name: Seq<char>| #[trigger] flat(sets).contains(name) <==> ports.contains(
        name,
    ) by {
        if flat(sets).contains(name) {
            let i = flat(sets).index_of(name);
            assert(flat(sets)[i] == name);
        }
        if ports.contains(name) {
            let i = ports.index_of(name);
            assert(ports[i] == name);
        }
    }
}

/// What is wrong with a node that is a source on an executor without threads,
/// or with its input groups.
pub open spec fn node_inputs_problem(n: NodeView, index: nat, executors: Seq<ExecutorView>) -> Option<
    ErrorView,
> {
    let delegated = exists|i: int|
        0 <= i < executors.len() && (#[trigger] executors[i]).name == n.executor
            && executors[i].kind == "DelegatingExecutor"@;
    if n.input_ports.len() == 0 && n.executor.len() != 0 && delegated {
        refused(
            n.path(index) + ".executor: source nodes cannot run on DelegatingExecutor"@,
        )
    } else if n.input_policy.kind == "sync_set"@ {
        grouping_problem(n, n.path(index))
    } else {
        None
    }
}

/// The first node with such a problem.
pub open spec fn nodes_inputs_problem(nodes: Seq<NodeView>, executors: Seq<ExecutorView>) -> Option<
    ErrorView,
>
    decreases nodes.len(),
{
    if nodes.len() == 0 {
        None
    } else {
        first_failure(
            nodes_inputs_problem(nodes.drop_last(), executors),
            node_inputs_problem(nodes.last(), (nodes.len() - 1) as nat, executors),
        )
    }
}

proof fn lemma_nodes_inputs_prefix(
    nodes: Seq<NodeView>,
    executors: Seq<ExecutorView>,
    k: int,
)
    requires
        0 <= k <= nodes.len(),
        nodes_inputs_problem(nodes.take(k), executors) is Some,
    ensures
        nodes_inputs_problem(nodes, executors) == nodes_inputs_problem(nodes.take(k), executors),
    decreases nodes.len() - k,
{
    if k < nodes.len() {
        assert(nodes.take(k + 1).drop_last() =~= nodes.take(k));
        lemma_nodes_inputs_prefix(nodes, executors, k + 1);
    } else {
        assert(nodes.take(k) =~= nodes);
    }
}

fn check_node_inputs(n: &NodeConfig, index: usize, executors: &Vec<ExecutorConfig>) -> (r: Result<
    (),
    Error,
>)
    ensures
        failure(r) == node_inputs_problem(
            n@,
            index as nat,
            executor_views(executors@),
        ),
{
    let path = diagnostic_node_path(n, index);
    let ghost all = executor_views(executors@);
    if n.input_ports.is_empty() && !n.executor.as_str().is_empty() {
        for i in 0..executors.len()
            invariant
                all == executor_views(executors@),
                path@ == n@.path(index as nat),
                n@.input_ports.len() == 0,
                n@.executor.len() != 0,
                forall|k: int|
                    0 <= k < i ==> !((#[trigger] all[k]).name == n@.executor && all[k].kind
                        == "DelegatingExecutor"@),
        {
            assert(all[i as int] == executors@[i as int]@);
            if same(executors[i].name.as_str(), n.executor.as_str()) && same(
                executors[i].kind.as_str(),
                "DelegatingExecutor",
            ) {
                return Err(
                    Error::InvalidArg(
                        cat2(
                            path.as_str(),
                            ".executor: source nodes cannot run on DelegatingExecutor",
                        ),
                    ),
                );
            }
        }
    }
    if same(n.input_policy.kind.as_str(), "sync_set") {
        return check_grouping(n, path.as_str());
    }
    Ok(())
}

/// The first thing that is wrong with the executors of a graph and the nodes
/// on them, on a machine with the given number of threads.
pub open spec fn preflight_problem(g: GraphView, parallelism: usize) -> Option<ErrorView> {
    first_failure(
        executor_list_problem(g.executors),
        first_failure(
            node_executors_problem(g.nodes, g.executors, parallelism),
            nodes_inputs_problem(g.nodes, g.executors),
        ),
    )
}

/// Refuses executors that do not fit, and nodes that do not fit their
/// executor. `parallelism` is the number of threads of the default executor.
pub fn validate_preflight_executors(config: &GraphConfig, parallelism: usize) -> (r: Result<
    (),
    Error,
>)
    ensures
        failure(r) == preflight_problem(config@, parallelism),
{
    let names = check_executors(&config.executors)?;
    let ghost nodes = config@.nodes;
    let ghost executors = config@.executors;
    assert(nodes.take(0) =~= Seq::empty());
    for i in 0..config.nodes.len()
        invariant
            nodes == config@.nodes,
            executors == config@.executors,
            texts(names@) == executor_names(executors),
            executor_list_problem(executors) is None,
            node_executors_problem(nodes.take(i as int), executors, parallelism) is None,
    {
        proof {
            assert(nodes.take(i + 1).drop_last() =~= nodes.take(i as int));
            assert(nodes.take(i + 1).last() == config.nodes@[i as int]@);
        }
        match check_node_executor(&config.nodes[i], i, &config.executors, &names, parallelism) {
            Ok(()) => {},
            Err(e) => {
                proof {
                    lemma_node_executors_prefix(nodes, executors, parallelism, i + 1);
                }
                return Err(e);
            },
        }
    }
    assert(nodes.take(nodes.len() as int) =~= nodes);
    for i in 0..config.nodes.len()
        invariant
            nodes == config@.nodes,
            executors == config@.executors,
            executor_list_problem(executors) is None,
            node_executors_problem(nodes, executors, parallelism) is None,
            nodes_inputs_problem(nodes.take(i as int), executors) is None,
    {
        proof {
            assert(nodes.take(i + 1).drop_last() =~= nodes.take(i as int));
            assert(nodes.take(i + 1).last() == config.nodes@[i as int]@);
        }
        match check_node_inputs(&config.nodes[i], i, &config.executors) {
            Ok(()) => {},
            Err(e) => {
                proof {
                    lemma_nodes_inputs_prefix(nodes, executors, i + 1);
                }
                return Err(e);
            },
        }
    }
    Ok(())
}

} // verus!
