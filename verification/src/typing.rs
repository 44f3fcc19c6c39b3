//! The types that kernels declare for their ports, compared across the edges
//! of a graph before it runs.

use crate::config::{GraphConfig, GraphView};
use crate::lifecycle::{contract_views, ContractView, KernelContract};
use crate::packet::{name_of_type, TypeNames};
use crate::plan::{edge_names, edge_names_distinct, plan_edge_views, producer_of};
use crate::port::{port_names, PortTable};
use crate::status::{failure, first_failure, Error, ErrorView};
use crate::supported::refused;
use crate::text::{cat4, cat5, texts};
use crate::topology::{declared_names, preflight_node_label, tables_of};
use crate::wiring::{
    inputs_are_edges, output_names_are_distinct, places, single_producer, wired, wired_edges_within,
    wiring_problem, Wiring,
};
use vstd::prelude::*;

verus! {

/// The type declared for a port; zero, which is any, where nothing is.
pub open spec fn type_at(types: Seq<u64>, port: int) -> u64 {
    if 0 <= port < types.len() {
        types[port]
    } else {
        0
    }
}

/// The type declared for the first port with that name.
pub open spec fn type_for(ports: Seq<Seq<char>>, types: Seq<u64>, name: Seq<char>) -> u64
    decreases ports.len(),
{
    if ports.len() == 0 {
        0
    } else if ports.drop_last().contains(name) {
        type_for(ports.drop_last(), types, name)
    } else if ports.last() == name {
        type_at(types, ports.len() - 1)
    } else {
        0
    }
}

/// The type that the producer of an edge declared; any for a graph input.
pub open spec fn given_type(g: GraphView, contracts: Seq<ContractView>, name: Seq<char>) -> u64 {
    match producer_of(places(g), name) {
        Some(m) => type_for(
            declared_names(g.nodes[m as int].output_ports),
            contracts[m as int].output_types,
            name,
        ),
        None => 0,
    }
}

/// The first of the first `k` input ports of a node whose declared type is not
/// the one that the producer of its edge declared. A port of any type goes
/// with every other.
pub open spec fn port_types_problem(
    g: GraphView,
    contracts: Seq<ContractView>,
    names: Map<u64, Seq<char>>,
    index: int,
    k: nat,
) -> Option<ErrorView>
    decreases k,
{
    if k == 0 {
        None
    } else {
        let name = declared_names(g.nodes[index].input_ports)[k - 1];
        let want = type_at(contracts[index].input_types, k - 1);
        let given = given_type(g, contracts, name);
        first_failure(
            port_types_problem(g, contracts, names, index, (k - 1) as nat),
            if want != 0 && given != 0 && want != given {
                refused(
                    "端口 `"@ + name + "` 类型不符:生产者声明 "@ + name_of_type(names, given)
                        + ", 节点 `"@ + g.nodes[index].numbered_label(index as nat)
                        + "` 声明 "@ + name_of_type(names, want),
                )
            } else {
                None
            },
        )
    }
}

/// The first of the first `k` nodes with such a port.
pub open spec fn edge_types_problem(
    g: GraphView,
    contracts: Seq<ContractView>,
    names: Map<u64, Seq<char>>,
    k: nat,
) -> Option<ErrorView>
    decreases k,
{
    if k == 0 {
        None
    } else {
        first_failure(
            edge_types_problem(g, contracts, names, (k - 1) as nat),
            port_types_problem(
                g,
                contracts,
                names,
                k - 1,
                declared_names(g.nodes[k - 1].input_ports).len(),
            ),
        )
    }
}

/// The first thing that keeps a graph from being built: it cannot be wired, or
/// the types at the two ends of an edge differ.
pub open spec fn building_problem(
    g: GraphView,
    contracts: Seq<ContractView>,
    names: Map<u64, Seq<char>>,
) -> Option<ErrorView> {
    first_failure(
        wiring_problem(g),
        edge_types_problem(g, contracts, names, g.nodes.len()),
    )
}

proof fn lemma_type_for(ports: Seq<Seq<char>>, types: Seq<u64>, i: int)
    requires
        0 <= i < ports.len(),
        forall|k: int| 0 <= k < i ==> #[trigger] ports[k] != ports[i],
    ensures
        type_for(ports, types, ports[i]) == type_at(types, i),
    decreases ports.len(),
{
    let front = ports.drop_last();
    if i < front.len() {
        lemma_type_for(front, types, i);
        assert(front[i] == ports[i]);
    } else if front.contains(ports[i]) {
        let k = front.index_of(ports[i]);
        assert(front[k] == ports[k]);
    }
}

proof fn lemma_no_type_for(ports: Seq<Seq<char>>, types: Seq<u64>, name: Seq<char>)
    requires
        !ports.contains(name),
    ensures
        type_for(ports, types, name) == 0,
{
    if ports.len() > 0 {
        let front = ports.drop_last();
        assert(ports[ports.len() - 1] == ports.last());
        if front.contains(name) {
            let k = front.index_of(name);
            assert(ports[k] == name);
        }
    }
}

proof fn lemma_port_types_prefix(
    g: GraphView,
    contracts: Seq<ContractView>,
    names: Map<u64, Seq<char>>,
    index: int,
    k: nat,
    m: nat,
)
    requires
        k <= m,
        port_types_problem(g, contracts, names, index, k) is Some,
    ensures
        port_types_problem(g, contracts, names, index, m) == port_types_problem(
            g,
            contracts,
            names,
            index,
            k,
        ),
    decreases m - k,
{
    if k < m {
        lemma_port_types_prefix(g, contracts, names, index, k, (m - 1) as nat);
    }
}

proof fn lemma_edge_types_prefix(
    g: GraphView,
    contracts: Seq<ContractView>,
    names: Map<u64, Seq<char>>,
    k: nat,
    m: nat,
)
    requires
        k <= m,
        edge_types_problem(g, contracts, names, k) is Some,
    ensures
        edge_types_problem(g, contracts, names, m) == edge_types_problem(g, contracts, names, k),
    decreases m - k,
{
    if k < m {
        lemma_edge_types_prefix(g, contracts, names, k, (m - 1) as nat);
    }
}

/// The type declared for the first port with that name.
fn find_type(table: &PortTable, types: &Vec<u64>, name: &str) -> (r: u64)
    ensures
        r == type_for(port_names(table@), types@, name@),
{
    match table.index_by_name(name) {
        Some(i) => {
            proof {
                assert forall|k: int| 0 <= k < i implies #[trigger] port_names(table@)[k]
                    != port_names(table@)[i as int] by {
                    assert(table@[k].name != name@);
                }
                lemma_type_for(port_names(table@), types@, i as int);
            }
            if i < types.len() {
                types[i]
            } else {
                0
            }
        },
        None => {
            proof {
                if port_names(table@).contains(name@) {
                    let k = port_names(table@).index_of(name@);
                    assert(table@[k].name == name@);
                }
                lemma_no_type_for(port_names(table@), types@, name@);
            }
            0
        },
    }
}

/// Refuses a node one of whose input ports does not go with its producer.
fn check_port_types(
    config: &GraphConfig,
    wiring: &Wiring,
    contracts: &Vec<KernelContract>,
    names: &TypeNames,
    index: usize,
) -> (r: Result<(), Error>)
    requires
        wiring_problem(config@) is None,
        wiring@ == wired(config@),
        tables_of(wiring.tables@, config@.nodes),
        contracts@.len() == config.nodes@.len(),
        index < config.nodes@.len(),
        forall|i: int|
            0 <= i < config@.nodes.len() ==> declared_names(
                (#[trigger] config@.nodes[i]).input_ports,
            ).len() <= usize::MAX,
    ensures
        failure(r) == port_types_problem(
            config@,
            contract_views(contracts@),
            names@,
            index as int,
            declared_names(config@.nodes[index as int].input_ports).len(),
        ),
{
    let ghost g = config@;
    let ghost declared = contract_views(contracts@);
    let ghost ms = places(g);
    let ghost known = edge_names(ms);
    let ghost own = declared_names(g.nodes[index as int].input_ports);
    assert(wiring.tables@[index as int].inputs@.len() >= 0);
    let ports = wiring.tables[index].inputs.names();
    proof {
        assert(config.nodes@.len() == config.nodes.len());
        edge_names_distinct(ms);
        inputs_are_edges(g, index as int);
        wired_edges_within(g, declared_names(g.output_ports));
        assert(texts(ports@) == own);
        assert(declared[index as int] == contracts@[index as int]@);
    }
    for p in 0..ports.len()
        invariant
            g == config@,
            declared == contract_views(contracts@),
            ms == places(g),
            known == edge_names(ms),
            own == declared_names(g.nodes[index as int].input_ports),
            texts(ports@) == own,
            wiring@ == wired(g),
            tables_of(wiring.tables@, g.nodes),
            contracts@.len() == config.nodes@.len(),
            index < config.nodes@.len(),
            declared[index as int] == contracts@[index as int]@,
            forall|j: int| 0 <= j < own.len() ==> known.contains(#[trigger] own[j]),
            forall|k: int|
                0 <= k < wired(g).edges.len() ==> ((#[trigger] wired(g).edges[k]).producer matches Some(
                    m,
                ) ==> m < g.nodes.len()),
            known.no_duplicates(),
            wired(g).edges.len() == known.len(),
            port_types_problem(g, declared, names@, index as int, p as nat) is None,
    {
        let name = ports[p].as_str();
        let ghost e = known.index_of(own[p as int]);
        proof {
            assert(texts(ports@)[p as int] == name@);
            assert(known.contains(own[p as int]));
            assert(known[e] == name@);
            assert(wired(g).edges[e].producer == producer_of(ms, known[e]));
        }
        let types = &contracts[index].input_types;
        let want: u64 = if p < types.len() {
            types[p]
        } else {
            0
        };
        let number: usize = match wiring.edge_by_name.get(name) {
            Some(i) => *i,
            None => 0,
        };
        proof {
            assert(plan_edge_views(wiring.edges@).len() == wiring.edges@.len());
            assert(wiring.edges@.len() == wiring.edges.len());
            assert(wiring.edge_by_name@.contains_key(name@));
            assert(number == e);
            assert(plan_edge_views(wiring.edges@)[e] == wiring.edges@[e]@);
        }
        let given: u64 = match wiring.edges[number].producer {
            Some(m) => {
                assert(wired(g).edges[e].producer == Some(m));
                assert(wiring.tables@[m as int].outputs@.len() >= 0);
                assert(declared[m as int] == contracts@[m as int]@);
                find_type(&wiring.tables[m].outputs, &contracts[m].output_types, name)
            },
            None => 0,
        };
        assert(given == given_type(g, declared, name@));
        if want != 0 && given != 0 && want != given {
            assert(g.nodes[index as int] == config.nodes@[index as int]@);
            let who = preflight_node_label(&config.nodes[index], index);
            let front = cat5(
                "端口 `",
                name,
                "` 类型不符:生产者声明 ",
                names.name(given).as_str(),
                ", 节点 `",
            );
            proof {
                lemma_port_types_prefix(
                    g,
                    declared,
                    names@,
                    index as int,
                    (p + 1) as nat,
                    own.len(),
                );
            }
            return Err(
                Error::InvalidArg(
                    cat4(
                        front.as_str(),
                        who.as_str(),
                        "` 声明 ",
                        names.name(want).as_str(),
                    ),
                ),
            );
        }
    }
    Ok(())
}

/// Refuses a graph with an edge whose two ends declared different types.
pub fn check_edge_types(
    config: &GraphConfig,
    wiring: &Wiring,
    contracts: &Vec<KernelContract>,
    names: &TypeNames,
) -> (r: Result<(), Error>)
    requires
        wiring_problem(config@) is None,
        wiring@ == wired(config@),
        tables_of(wiring.tables@, config@.nodes),
        contracts@.len() == config.nodes@.len(),
    ensures
        failure(r) == edge_types_problem(
            config@,
            contract_views(contracts@),
            names@,
            config@.nodes.len(),
        ),
{
    let ghost g = config@;
    let ghost declared = contract_views(contracts@);
    for i in 0..config.nodes.len()
        invariant
            g == config@,
            wiring@ == wired(g),
            tables_of(wiring.tables@, g.nodes),
            forall|k: int|
                0 <= k < i ==> declared_names((#[trigger] g.nodes[k]).input_ports).len()
                    <= usize::MAX,
    {
        assert(g.nodes[i as int] == config.nodes@[i as int]@);
        assert(wiring.tables@[i as int].inputs@.len() >= 0);
        let count: usize = wiring.tables[i].inputs.len();
        assert(declared_names(g.nodes[i as int].input_ports).len() == count);
    }
    for i in 0..config.nodes.len()
        invariant
            g == config@,
            declared == contract_views(contracts@),
            wiring_problem(g) is None,
            wiring@ == wired(g),
            tables_of(wiring.tables@, g.nodes),
            contracts@.len() == config.nodes@.len(),
            forall|k: int|
                0 <= k < g.nodes.len() ==> declared_names(
                    (#[trigger] g.nodes[k]).input_ports,
                ).len() <= usize::MAX,
            edge_types_problem(g, declared, names@, i as nat) is None,
    {
        match check_port_types(config, wiring, contracts, names, i) {
            Ok(()) => {},
            Err(e) => {
                proof {
                    lemma_edge_types_prefix(g, declared, names@, (i + 1) as nat, g.nodes.len());
                }
                return Err(e);
            },
        }
    }
    Ok(())
}

// ------------------------------------------------------------------- the laws

/// In a graph that can be built the two ends of an edge declare the same type,
/// unless one of them takes or gives any.
pub proof fn edges_agree_on_types(
    g: GraphView,
    contracts: Seq<ContractView>,
    names: Map<u64, Seq<char>>,
    maker: int,
    output: int,
    reader: int,
    input: int,
)
    requires
        building_problem(g, contracts, names) is None,
        g.nodes.len() <= usize::MAX,
        0 <= maker < g.nodes.len(),
        0 <= reader < g.nodes.len(),
        0 <= output < declared_names(g.nodes[maker].output_ports).len(),
        0 <= input < declared_names(g.nodes[reader].input_ports).len(),
        declared_names(g.nodes[maker].output_ports)[output] == declared_names(
            g.nodes[reader].input_ports,
        )[input],
    ensures
        ({
            let given = type_at(contracts[maker].output_types, output);
            let want = type_at(contracts[reader].input_types, input);
            given == 0 || want == 0 || given == want
        }),
{
    let outs = declared_names(g.nodes[maker].output_ports);
    let ins = declared_names(g.nodes[reader].input_ports);
    if edge_types_problem(g, contracts, names, (reader + 1) as nat) is Some {
        lemma_edge_types_prefix(g, contracts, names, (reader + 1) as nat, g.nodes.len());
    }
    if port_types_problem(g, contracts, names, reader, (input + 1) as nat) is Some {
        lemma_port_types_prefix(g, contracts, names, reader, (input + 1) as nat, ins.len());
    }
    single_producer(g, maker, output);
    output_names_are_distinct(g, maker);
    lemma_type_for(outs, contracts[maker].output_types, output);
    assert(given_type(g, contracts, ins[input]) == type_at(
        contracts[maker].output_types,
        output,
    ));
}

} // verus!
