//! What an instance of a subgraph is connected to.

use crate::config::{GraphView, NodeView, SubgraphView};
use crate::expand::{
    bound, expanded, flattened, flattened_node, instance_names, lemma_idle_shrinks, renamed,
    renamed_ports, renaming_keeps_tags_and_indices,
};
use crate::port::{accepted_port_is_clean, port_list, port_spec};
use crate::status::ErrorView;
use vstd::prelude::*;

verus! {

/// The name in an accepted declaration of a port.
pub open spec fn declared(decl: Seq<char>) -> Seq<char> {
    port_spec(decl)->Ok_0.name
}

/// The names at the boundary of a subgraph: those of its inputs, then those of
/// its outputs.
pub open spec fn boundary_names(sub: SubgraphView) -> Seq<Seq<char>> {
    let ins = sub.input_ports;
    let outs = sub.output_ports;
    Seq::new(
        ins.len() + outs.len(),
        |i: int|
            if i < ins.len() {
                declared(ins[i])
            } else {
                declared(outs[i - ins.len()])
            },
    )
}

/// Whether all declarations of a list are accepted.
pub open spec fn all_declare(decls: Seq<Seq<char>>) -> bool {
    forall|i: int| 0 <= i < decls.len() ==> port_spec(#[trigger] decls[i]) is Ok
}

proof fn lemma_bound(
    map: Map<Seq<char>, Seq<char>>,
    boundary: Seq<Seq<char>>,
    outer: Seq<Seq<char>>,
    k: int,
)
    requires
        0 <= k <= boundary.len(),
        k <= outer.len(),
        forall|i: int, j: int|
            0 <= i < j < k ==> declared(#[trigger] boundary[i]) != declared(#[trigger] boundary[j]),
    ensures
        bound(map, boundary, outer, k) is Ok <==> forall|i: int|
            #![trigger boundary[i]]
            #![trigger outer[i]]
            0 <= i < k ==> port_spec(boundary[i]) is Ok && port_spec(outer[i]) is Ok,
        bound(map, boundary, outer, k) matches Ok(m) ==> {
            &&& forall|i: int|
                0 <= i < k ==> m.contains_key(declared(#[trigger] boundary[i]))
                    && m[declared(boundary[i])] == declared(outer[i])
            &&& forall|name: Seq<char>|
                (forall|i: int| 0 <= i < k ==> declared(#[trigger] boundary[i]) != name) ==> {
                    &&& #[trigger] m.contains_key(name) <==> map.contains_key(name)
                    &&& map.contains_key(name) ==> m[name] == map[name]
                }
        },
    decreases k,
{
    if k > 0 {
        lemma_bound(map, boundary, outer, k - 1);
        let before = bound(map, boundary, outer, k - 1);
        let all = forall|i: int|
            #![trigger boundary[i]]
            #![trigger outer[i]]
            0 <= i < k ==> port_spec(boundary[i]) is Ok && port_spec(outer[i]) is Ok;
        if all {
            assert forall|i: int|
                #![trigger boundary[i]]
                #![trigger outer[i]]
                0 <= i < k - 1 implies port_spec(boundary[i]) is Ok && port_spec(
                outer[i],
            ) is Ok by {}
            assert(port_spec(boundary[k - 1]) is Ok && port_spec(outer[k - 1]) is Ok);
        }
        if bound(map, boundary, outer, k) is Ok {
            let m = bound(map, boundary, outer, k)->Ok_0;
            let early = before->Ok_0;
            let (key, value) = (declared(boundary[k - 1]), declared(outer[k - 1]));
            assert(m == early.insert(key, value));
            assert forall|i: int|
                #![trigger boundary[i]]
                #![trigger outer[i]]
                0 <= i < k implies port_spec(boundary[i]) is Ok && port_spec(outer[i]) is Ok by {
                if i < k - 1 {
                    assert(port_spec(boundary[i]) is Ok && port_spec(outer[i]) is Ok);
                }
            }
            assert forall|i: int| 0 <= i < k implies m.contains_key(
                declared(#[trigger] boundary[i]),
            ) && m[declared(boundary[i])] == declared(outer[i]) by {
                if i < k - 1 {
                    assert(declared(boundary[i]) != declared(boundary[k - 1]));
                }
            }
            assert forall|name: Seq<char>|
                (forall|i: int| 0 <= i < k ==> declared(#[trigger] boundary[i]) != name) implies {
                &&& #[trigger] m.contains_key(name) <==> map.contains_key(name)
                &&& map.contains_key(name) ==> m[name] == map[name]
            } by {
                assert(declared(boundary[k - 1]) != name);
                assert(early.contains_key(name) <==> map.contains_key(name));
            }
        }
    }
}

/// Inside an instance, the name of a port at the boundary means the port that
/// the instance has at the same place of the same list: the first input the
/// first input, the last output the last output. No other name is bound.
pub proof fn boundary_ports_are_bound_by_position(
    sub: SubgraphView,
    inputs: Seq<Seq<char>>,
    outputs: Seq<Seq<char>>,
)
    requires
        inputs.len() == sub.input_ports.len(),
        outputs.len() == sub.output_ports.len(),
        boundary_names(sub).no_duplicates(),
    ensures
        instance_names(sub, inputs, outputs) is Ok <==> all_declare(sub.input_ports)
            && all_declare(inputs) && all_declare(sub.output_ports) && all_declare(outputs),
        instance_names(sub, inputs, outputs) matches Ok(m) ==> {
            &&& forall|i: int|
                0 <= i < inputs.len() ==> m.contains_key(declared(#[trigger] sub.input_ports[i]))
                    && m[declared(sub.input_ports[i])] == declared(inputs[i])
            &&& forall|i: int|
                0 <= i < outputs.len() ==> m.contains_key(declared(#[trigger] sub.output_ports[i]))
                    && m[declared(sub.output_ports[i])] == declared(outputs[i])
            &&& forall|name: Seq<char>| #[trigger]
                m.contains_key(name) ==> boundary_names(sub).contains(name)
        },
{
    let names = boundary_names(sub);
    let (ins, outs) = (sub.input_ports, sub.output_ports);
    let n = ins.len() as int;
    assert forall|i: int, j: int| 0 <= i < j < n implies declared(#[trigger] ins[i]) != declared(
        #[trigger] ins[j],
    ) by {
        assert(names[i] == declared(ins[i]) && names[j] == declared(ins[j]));
    }
    assert forall|i: int, j: int| 0 <= i < j < outs.len() implies declared(#[trigger] outs[i])
        != declared(#[trigger] outs[j]) by {
        assert(names[n + i] == declared(outs[i]) && names[n + j] == declared(outs[j]));
    }
    let none = Map::<Seq<char>, Seq<char>>::empty();
    lemma_bound(none, ins, inputs, n);
    let first = bound(none, ins, inputs, n);
    if first is Ok {
        let f = first->Ok_0;
        lemma_bound(f, outs, outputs, outs.len() as int);
        if instance_names(sub, inputs, outputs) is Ok {
            let m = instance_names(sub, inputs, outputs)->Ok_0;
            assert forall|i: int| 0 <= i < inputs.len() implies m.contains_key(
                declared(#[trigger] ins[i]),
            ) && m[declared(ins[i])] == declared(inputs[i]) by {
                assert forall|j: int| 0 <= j < outs.len() implies declared(#[trigger] outs[j])
                    != declared(ins[i]) by {
                    assert(names[i] == declared(ins[i]) && names[n + j] == declared(outs[j]));
                }
                assert(f.contains_key(declared(ins[i])));
                assert(m.contains_key(declared(ins[i])));
            }
            assert forall|name: Seq<char>| #[trigger] m.contains_key(name) implies names.contains(
                name,
            ) by {
                if exists|j: int| 0 <= j < outs.len() && declared(#[trigger] outs[j]) == name {
                    let j = choose|j: int|
                        0 <= j < outs.len() && declared(#[trigger] outs[j]) == name;
                    assert(names[n + j] == name);
                } else {
                    assert(f.contains_key(name));
                    if exists|j: int| 0 <= j < n && declared(#[trigger] ins[j]) == name {
                        let j = choose|j: int| 0 <= j < n && declared(#[trigger] ins[j]) == name;
                        assert(names[j] == name);
                    } else {
                        assert(none.contains_key(name));
                    }
                }
            }
        }
    }
    let (a, b, c, d) = (
        all_declare(ins),
        all_declare(inputs),
        all_declare(outs),
        all_declare(outputs),
    );
    if a && b {
        assert forall|i: int|
            #![trigger ins[i]]
            #![trigger inputs[i]]
            0 <= i < n implies port_spec(ins[i]) is Ok && port_spec(inputs[i]) is Ok by {}
    }
    if c && d {
        assert forall|i: int|
            #![trigger outs[i]]
            #![trigger outputs[i]]
            0 <= i < outs.len() implies port_spec(outs[i]) is Ok && port_spec(outputs[i]) is Ok by {}
    }
}

/// What a name of the surroundings is called: as the renaming there says, else
/// with the prefix in front.
pub open spec fn outside(
    prefix: Seq<char>,
    rename: Map<Seq<char>, Seq<char>>,
    name: Seq<char>,
    new: Seq<char>,
) -> bool {
    &&& rename.contains_key(name) ==> new == rename[name]
    &&& !rename.contains_key(name) ==> new == prefix + name
}

/// Whether `new` is what a name inside an instance `n` of a subgraph has to
/// become: at the boundary, what the port of the instance at the same place is
/// called outside; elsewhere, a name under that of the instance.
pub open spec fn inside(
    n: NodeView,
    sub: SubgraphView,
    prefix: Seq<char>,
    rename: Map<Seq<char>, Seq<char>>,
    name: Seq<char>,
    new: Seq<char>,
) -> bool {
    &&& forall|b: int|
        0 <= b < sub.input_ports.len() && declared(#[trigger] sub.input_ports[b]) == name
            ==> outside(prefix, rename, declared(n.input_ports[b]), new)
    &&& forall|b: int|
        0 <= b < sub.output_ports.len() && declared(#[trigger] sub.output_ports[b]) == name
            ==> outside(prefix, rename, declared(n.output_ports[b]), new)
    &&& !boundary_names(sub).contains(name) ==> new == prefix + n.label() + "/"@ + name
}

/// Whether the ports in `after` are those in `before`, each with its tag and
/// its index, under the names that they get inside the instance.
pub open spec fn ports_inside(
    n: NodeView,
    sub: SubgraphView,
    prefix: Seq<char>,
    rename: Map<Seq<char>, Seq<char>>,
    before: Seq<Seq<char>>,
    after: Seq<Seq<char>>,
) -> bool {
    &&& after.len() == before.len()
    &&& all_declare(before)
    &&& all_declare(after)
    &&& forall|j: int|
        #![trigger before[j]]
        #![trigger after[j]]
        0 <= j < before.len() ==> {
            let (old_port, new_port) = (port_spec(before[j])->Ok_0, port_spec(after[j])->Ok_0);
            &&& new_port.tag == old_port.tag
            &&& new_port.index == old_port.index
            &&& inside(n, sub, prefix, rename, old_port.name, new_port.name)
        }
}

pub proof fn lemma_port_list(decls: Seq<Seq<char>>)
    ensures
        port_list(decls) is Ok <==> all_declare(decls),
        port_list(decls) matches Ok(list) ==> list.len() == decls.len() && forall|i: int|
            0 <= i < decls.len() ==> list[i] == port_spec(#[trigger] decls[i])->Ok_0,
    decreases decls.len(),
{
    if decls.len() > 0 {
        let front = decls.drop_last();
        lemma_port_list(front);
        assert forall|i: int| 0 <= i < front.len() implies front[i] == #[trigger] decls[i] by {}
        if all_declare(decls) {
            assert forall|i: int| 0 <= i < front.len() implies port_spec(
                #[trigger] front[i],
            ) is Ok by {
                assert(front[i] == decls[i]);
            }
            assert(port_spec(decls[decls.len() - 1]) is Ok);
        }
        if port_list(decls) is Ok {
            let list = port_list(decls)->Ok_0;
            assert(list == port_list(front)->Ok_0.push(port_spec(decls.last())->Ok_0));
            assert forall|i: int| 0 <= i < decls.len() implies port_spec(
                #[trigger] decls[i],
            ) is Ok && list[i] == port_spec(decls[i])->Ok_0 by {
                if i < front.len() {
                    assert(front[i] == decls[i]);
                }
            }
        }
    }
}

/// A list of nodes is expanded node by node, in order: what stands for the
/// first ones comes first. The first refusal is the answer.
pub proof fn expansion_goes_node_by_node(
    a: Seq<NodeView>,
    b: Seq<NodeView>,
    prefix: Seq<char>,
    rename: Map<Seq<char>, Seq<char>>,
    subgraphs: Map<Seq<char>, SubgraphView>,
    stack: Seq<Seq<char>>,
)
    requires
        subgraphs.dom().finite(),
    ensures
        ({
            let first = flattened(a, prefix, rename, subgraphs, stack);
            let second = flattened(b, prefix, rename, subgraphs, stack);
            let whole = flattened(a + b, prefix, rename, subgraphs, stack);
            &&& whole is Ok <==> first is Ok && second is Ok
            &&& whole is Ok ==> whole->Ok_0 == first->Ok_0 + second->Ok_0
            &&& first is Err ==> whole == first
            &&& first is Ok && second is Err ==> whole == second
        }),
    decreases b.len(),
{
    if b.len() == 0 {
        assert(a + b =~= a);
        assert(flattened(b, prefix, rename, subgraphs, stack)->Ok_0 =~= Seq::empty());
        if flattened(a, prefix, rename, subgraphs, stack) is Ok {
            let first = flattened(a, prefix, rename, subgraphs, stack)->Ok_0;
            assert(first + Seq::<NodeView>::empty() =~= first);
        }
    } else {
        expansion_goes_node_by_node(a, b.drop_last(), prefix, rename, subgraphs, stack);
        assert((a + b).drop_last() =~= a + b.drop_last());
        assert((a + b).last() == b.last());
        let first = flattened(a, prefix, rename, subgraphs, stack);
        let front = flattened(b.drop_last(), prefix, rename, subgraphs, stack);
        let last = flattened_node(b.last(), prefix, rename, subgraphs, stack);
        if first is Ok && front is Ok && last is Ok {
            assert((first->Ok_0 + front->Ok_0) + last->Ok_0 =~= first->Ok_0 + (front->Ok_0
                + last->Ok_0));
        }
    }
}

/// Whether a node has a kernel of its own.
pub open spec fn has_kernel(n: NodeView) -> bool {
    n.kind.len() == 0 && n.kernel.len() > 0
}

proof fn lemma_kernels_stay(
    nodes: Seq<NodeView>,
    prefix: Seq<char>,
    rename: Map<Seq<char>, Seq<char>>,
    subgraphs: Map<Seq<char>, SubgraphView>,
    stack: Seq<Seq<char>>,
)
    requires
        subgraphs.dom().finite(),
        flattened(nodes, prefix, rename, subgraphs, stack) is Ok,
        forall|i: int| 0 <= i < nodes.len() ==> #[trigger] has_kernel(nodes[i]),
    ensures
        ({
            let flat = flattened(nodes, prefix, rename, subgraphs, stack)->Ok_0;
            &&& flat.len() == nodes.len()
            &&& forall|i: int|
                #![trigger flat[i]]
                #![trigger nodes[i]]
                0 <= i < nodes.len() ==> {
                    let (ins, outs) = (
                        port_list(nodes[i].input_ports),
                        port_list(nodes[i].output_ports),
                    );
                    &&& ins is Ok && outs is Ok
                    &&& flat[i] == nodes[i].placed(
                        prefix,
                        rename,
                        renamed_ports(ins->Ok_0, prefix, rename),
                        renamed_ports(outs->Ok_0, prefix, rename),
                    )
                }
        }),
    decreases nodes.len(),
{
    if nodes.len() > 0 {
        let front = nodes.drop_last();
        assert forall|i: int| 0 <= i < front.len() implies #[trigger] has_kernel(front[i]) by {
            assert(has_kernel(nodes[i]));
        }
        lemma_kernels_stay(front, prefix, rename, subgraphs, stack);
        let n = nodes.last();
        assert(has_kernel(nodes[nodes.len() - 1]));
        reveal_strlit("route");
        assert(n.kind != "route"@);
        let flat = flattened(nodes, prefix, rename, subgraphs, stack)->Ok_0;
        let early = flattened(front, prefix, rename, subgraphs, stack)->Ok_0;
        let more = flattened_node(n, prefix, rename, subgraphs, stack)->Ok_0;
        assert(flat == early + more);
        assert(more.len() == 1);
        assert forall|i: int|
            #![trigger flat[i]]
            #![trigger nodes[i]]
            0 <= i < nodes.len() implies {
            let (ins, outs) = (port_list(nodes[i].input_ports), port_list(nodes[i].output_ports));
            &&& ins is Ok && outs is Ok
            &&& flat[i] == nodes[i].placed(
                prefix,
                rename,
                renamed_ports(ins->Ok_0, prefix, rename),
                renamed_ports(outs->Ok_0, prefix, rename),
            )
        } by {
            if i < front.len() {
                assert(flat[i] == early[i]);
                assert(nodes[i] == front[i]);
            } else {
                assert(flat[i] == more[0]);
            }
        }
    }
}

/// Whether a renaming gives names that a declaration can hold.
pub open spec fn clean(rename: Map<Seq<char>, Seq<char>>) -> bool {
    forall|name: Seq<char>| #[trigger]
        rename.contains_key(name) ==> rename[name].len() > 0 && !rename[name].contains(':')
}

/// What an instance's own ports are called outside.
proof fn lemma_outer_names(
    decls: Seq<Seq<char>>,
    prefix: Seq<char>,
    rename: Map<Seq<char>, Seq<char>>,
)
    requires
        port_list(decls) is Ok,
        !prefix.contains(':'),
        clean(rename),
    ensures
        ({
            let out = renamed_ports(port_list(decls)->Ok_0, prefix, rename);
            &&& out.len() == decls.len()
            &&& all_declare(out)
            &&& forall|i: int|
                #![trigger out[i]]
                #![trigger decls[i]]
                0 <= i < decls.len() ==> {
                    &&& port_spec(out[i])->Ok_0.tag == port_spec(decls[i])->Ok_0.tag
                    &&& port_spec(out[i])->Ok_0.index == port_spec(decls[i])->Ok_0.index
                    &&& outside(prefix, rename, declared(decls[i]), declared(out[i]))
                    &&& declared(out[i]).len() > 0 && !declared(out[i]).contains(':')
                }
        }),
{
    let list = port_list(decls)->Ok_0;
    let out = renamed_ports(list, prefix, rename);
    renaming_keeps_tags_and_indices(decls, prefix, rename);
    lemma_port_list(decls);
    lemma_port_list(out);
    assert forall|i: int|
        #![trigger out[i]]
        #![trigger decls[i]]
        0 <= i < decls.len() implies {
        &&& port_spec(out[i])->Ok_0.tag == port_spec(decls[i])->Ok_0.tag
        &&& port_spec(out[i])->Ok_0.index == port_spec(decls[i])->Ok_0.index
        &&& outside(prefix, rename, declared(decls[i]), declared(out[i]))
        &&& declared(out[i]).len() > 0 && !declared(out[i]).contains(':')
    } by {
        assert(list[i] == port_spec(decls[i])->Ok_0);
        assert(port_list(out)->Ok_0[i] == port_spec(out[i])->Ok_0);
        assert(port_spec(out[i]) is Ok);
        accepted_port_is_clean(out[i]);
    }
}

/// The name that a port gets is the one that it has to get.
proof fn lemma_inside(
    n: NodeView,
    sub: SubgraphView,
    prefix: Seq<char>,
    rename: Map<Seq<char>, Seq<char>>,
    names: Map<Seq<char>, Seq<char>>,
    name: Seq<char>,
)
    requires
        !prefix.contains(':'),
        clean(rename),
        port_list(n.input_ports) is Ok,
        port_list(n.output_ports) is Ok,
        n.input_ports.len() == sub.input_ports.len(),
        n.output_ports.len() == sub.output_ports.len(),
        boundary_names(sub).no_duplicates(),
        instance_names(
            sub,
            renamed_ports(port_list(n.input_ports)->Ok_0, prefix, rename),
            renamed_ports(port_list(n.output_ports)->Ok_0, prefix, rename),
        ) == Ok::<Map<Seq<char>, Seq<char>>, ErrorView>(names),
    ensures
        inside(
            n,
            sub,
            prefix,
            rename,
            name,
            renamed(name, prefix + n.label() + "/"@, names),
        ),
        clean(names),
{
    let inputs = renamed_ports(port_list(n.input_ports)->Ok_0, prefix, rename);
    let outputs = renamed_ports(port_list(n.output_ports)->Ok_0, prefix, rename);
    lemma_outer_names(n.input_ports, prefix, rename);
    lemma_outer_names(n.output_ports, prefix, rename);
    boundary_ports_are_bound_by_position(sub, inputs, outputs);
    let new = renamed(name, prefix + n.label() + "/"@, names);
    assert forall|b: int|
        0 <= b < sub.input_ports.len() && declared(#[trigger] sub.input_ports[b])
            == name implies outside(prefix, rename, declared(n.input_ports[b]), new) by {
        assert(names.contains_key(name) && names[name] == declared(inputs[b]));
        assert(outside(prefix, rename, declared(n.input_ports[b]), declared(inputs[b])));
    }
    assert forall|b: int|
        0 <= b < sub.output_ports.len() && declared(#[trigger] sub.output_ports[b])
            == name implies outside(prefix, rename, declared(n.output_ports[b]), new) by {
        assert(names.contains_key(name) && names[name] == declared(outputs[b]));
        assert(outside(prefix, rename, declared(n.output_ports[b]), declared(outputs[b])));
    }
    assert forall|key: Seq<char>| #[trigger] names.contains_key(key) implies names[key].len() > 0
        && !names[key].contains(':') by {
        let all = boundary_names(sub);
        assert(all.contains(key));
        let i = all.index_of(key);
        assert(all[i] == key);
        if i < sub.input_ports.len() {
            assert(declared(sub.input_ports[i]) == key);
            assert(names[key] == declared(inputs[i]));
        } else {
            let j = i - sub.input_ports.len();
            assert(declared(sub.output_ports[j]) == key);
            assert(names[key] == declared(outputs[j]));
        }
    }
}

/// An instance of a subgraph becomes the nodes of the subgraph, in their order
/// and each with its kernel, its options and all that is its own. Each is
/// named under the instance. Its ports keep their tags and indices; at the
/// boundary they are those of the instance, by position, and elsewhere they
/// are named under the instance too, and so are its feedback edges and the
/// groups of its inputs.
pub proof fn instances_become_their_nodes(
    n: NodeView,
    prefix: Seq<char>,
    rename: Map<Seq<char>, Seq<char>>,
    subgraphs: Map<Seq<char>, SubgraphView>,
    stack: Seq<Seq<char>>,
    i: int,
)
    requires
        subgraphs.dom().finite(),
        n.kind.len() > 0,
        n.kind != "route"@,
        subgraphs.contains_key(n.kind),
        !prefix.contains(':'),
        !n.label().contains(':'),
        clean(rename),
        forall|k: int|
            0 <= k < subgraphs[n.kind].nodes.len() ==> #[trigger] has_kernel(
                subgraphs[n.kind].nodes[k],
            ),
        boundary_names(subgraphs[n.kind]).no_duplicates(),
        flattened_node(n, prefix, rename, subgraphs, stack) is Ok,
        0 <= i < subgraphs[n.kind].nodes.len(),
    ensures
        ({
            let sub = subgraphs[n.kind];
            let flat = flattened_node(n, prefix, rename, subgraphs, stack)->Ok_0;
            let (before, after) = (sub.nodes[i], flat[i]);
            &&& flat.len() == sub.nodes.len()
            &&& after.name == prefix + n.label() + "/"@ + before.label()
            &&& after.kernel == before.kernel
            &&& after.kind == before.kind
            &&& after.executor == before.executor
            &&& after.options == before.options
            &&& after.max_in_flight == before.max_in_flight
            &&& after.on_error == before.on_error
            &&& after.rate == before.rate
            &&& after.route == before.route
            &&& after.source_path == before.source_path
            &&& after.input_policy.kind == before.input_policy.kind
            &&& after.input_policy.capacity == before.input_policy.capacity
            &&& ports_inside(n, sub, prefix, rename, before.input_ports, after.input_ports)
            &&& ports_inside(n, sub, prefix, rename, before.output_ports, after.output_ports)
            &&& after.back_edges.len() == before.back_edges.len()
            &&& forall|j: int|
                0 <= j < before.back_edges.len() ==> inside(
                    n,
                    sub,
                    prefix,
                    rename,
                    #[trigger] before.back_edges[j],
                    after.back_edges[j],
                )
            &&& after.input_policy.sets.len() == before.input_policy.sets.len()
            &&& forall|s: int, j: int|
                0 <= s < before.input_policy.sets.len() && 0 <= j
                    < before.input_policy.sets[s].len() ==> after.input_policy.sets[s].len()
                    == before.input_policy.sets[s].len() && inside(
                    n,
                    sub,
                    prefix,
                    rename,
                    #[trigger] before.input_policy.sets[s][j],
                    after.input_policy.sets[s][j],
                )
        }),
{
    let sub = subgraphs[n.kind];
    let inner = prefix + n.label() + "/"@;
    let inputs = renamed_ports(port_list(n.input_ports)->Ok_0, prefix, rename);
    let outputs = renamed_ports(port_list(n.output_ports)->Ok_0, prefix, rename);
    let names = instance_names(sub, inputs, outputs)->Ok_0;
    lemma_idle_shrinks(subgraphs, stack, n.kind);
    lemma_port_list(n.input_ports);
    lemma_port_list(n.output_ports);
    let flat = flattened_node(n, prefix, rename, subgraphs, stack)->Ok_0;
    assert(flattened(sub.nodes, inner, names, subgraphs, stack.push(n.kind)) == Ok::<
        Seq<NodeView>,
        ErrorView,
    >(flat));
    lemma_kernels_stay(sub.nodes, inner, names, subgraphs, stack.push(n.kind));
    let (before, after) = (sub.nodes[i], flat[i]);
    assert(has_kernel(before));
    reveal_strlit("/");
    reveal_strlit("route");
    assert forall|k: int| 0 <= k < inner.len() implies inner[k] != ':' by {
        if k < prefix.len() {
            assert(prefix.contains(prefix[k]));
        } else if k < prefix.len() + n.label().len() {
            assert(n.label().contains(n.label()[k - prefix.len()]));
        }
    }
    lemma_inside(n, sub, prefix, rename, names, Seq::empty());
    lemma_ports_inside(n, sub, prefix, rename, names, before.input_ports);
    lemma_ports_inside(n, sub, prefix, rename, names, before.output_ports);
    assert forall|j: int| 0 <= j < before.back_edges.len() implies inside(
        n,
        sub,
        prefix,
        rename,
        #[trigger] before.back_edges[j],
        after.back_edges[j],
    ) by {
        lemma_inside(n, sub, prefix, rename, names, before.back_edges[j]);
    }
    assert forall|s: int, j: int|
        0 <= s < before.input_policy.sets.len() && 0 <= j
            < before.input_policy.sets[s].len() implies after.input_policy.sets[s].len()
        == before.input_policy.sets[s].len() && inside(
        n,
        sub,
        prefix,
        rename,
        #[trigger] before.input_policy.sets[s][j],
        after.input_policy.sets[s][j],
    ) by {
        lemma_inside(n, sub, prefix, rename, names, before.input_policy.sets[s][j]);
    }
}

proof fn lemma_ports_inside(
    n: NodeView,
    sub: SubgraphView,
    prefix: Seq<char>,
    rename: Map<Seq<char>, Seq<char>>,
    names: Map<Seq<char>, Seq<char>>,
    decls: Seq<Seq<char>>,
)
    requires
        !prefix.contains(':'),
        !(prefix + n.label() + "/"@).contains(':'),
        clean(rename),
        port_list(n.input_ports) is Ok,
        port_list(n.output_ports) is Ok,
        n.input_ports.len() == sub.input_ports.len(),
        n.output_ports.len() == sub.output_ports.len(),
        boundary_names(sub).no_duplicates(),
        instance_names(
            sub,
            renamed_ports(port_list(n.input_ports)->Ok_0, prefix, rename),
            renamed_ports(port_list(n.output_ports)->Ok_0, prefix, rename),
        ) == Ok::<Map<Seq<char>, Seq<char>>, ErrorView>(names),
        port_list(decls) is Ok,
    ensures
        ports_inside(
            n,
            sub,
            prefix,
            rename,
            decls,
            renamed_ports(port_list(decls)->Ok_0, prefix + n.label() + "/"@, names),
        ),
{
    let inner = prefix + n.label() + "/"@;
    let after = renamed_ports(port_list(decls)->Ok_0, inner, names);
    lemma_inside(n, sub, prefix, rename, names, Seq::empty());
    lemma_port_list(decls);
    lemma_outer_names(decls, inner, names);
    assert forall|j: int|
        #![trigger decls[j]]
        #![trigger after[j]]
        0 <= j < decls.len() implies {
        let (old_port, new_port) = (port_spec(decls[j])->Ok_0, port_spec(after[j])->Ok_0);
        &&& new_port.tag == old_port.tag
        &&& new_port.index == old_port.index
        &&& inside(n, sub, prefix, rename, old_port.name, new_port.name)
    } by {
        lemma_inside(n, sub, prefix, rename, names, declared(decls[j]));
        assert(outside(inner, names, declared(decls[j]), declared(after[j])));
    }
}

/// An instance is accepted only if its subgraph is there and not being expanded
/// already, and if it has as many ports as the subgraph on both sides. One that
/// is, and whose boundary is declared well, is what the nodes of the subgraph
/// are, under its name.
pub proof fn instances_fit_their_subgraphs(
    n: NodeView,
    prefix: Seq<char>,
    rename: Map<Seq<char>, Seq<char>>,
    subgraphs: Map<Seq<char>, SubgraphView>,
    stack: Seq<Seq<char>>,
)
    requires
        subgraphs.dom().finite(),
        n.kind.len() > 0,
        n.kind != "route"@,
        clean(rename),
        !prefix.contains(':'),
    ensures
        ({
            let sub = subgraphs[n.kind];
            let fits = {
                &&& n.kernel.len() == 0
                &&& subgraphs.contains_key(n.kind)
                &&& !stack.contains(n.kind)
                &&& all_declare(n.input_ports)
                &&& all_declare(n.output_ports)
                &&& n.input_ports.len() == sub.input_ports.len()
                &&& n.output_ports.len() == sub.output_ports.len()
            };
            &&& flattened_node(n, prefix, rename, subgraphs, stack) is Ok ==> fits
            &&& fits && all_declare(sub.input_ports) && all_declare(sub.output_ports)
                && boundary_names(sub).no_duplicates() ==> exists|names: Map<Seq<char>, Seq<char>>|
                flattened_node(n, prefix, rename, subgraphs, stack) == #[trigger] flattened(
                    sub.nodes,
                    prefix + n.label() + "/"@,
                    names,
                    subgraphs,
                    stack.push(n.kind),
                )
        }),
{
    lemma_port_list(n.input_ports);
    lemma_port_list(n.output_ports);
    let sub = subgraphs[n.kind];
    if n.kernel.len() == 0 && subgraphs.contains_key(n.kind) && !stack.contains(n.kind)
        && all_declare(n.input_ports) && all_declare(n.output_ports) && n.input_ports.len()
        == sub.input_ports.len() && n.output_ports.len() == sub.output_ports.len() && all_declare(
        sub.input_ports,
    ) && all_declare(sub.output_ports) && boundary_names(sub).no_duplicates() {
        lemma_outer_names(n.input_ports, prefix, rename);
        lemma_outer_names(n.output_ports, prefix, rename);
        let inputs = renamed_ports(port_list(n.input_ports)->Ok_0, prefix, rename);
        let outputs = renamed_ports(port_list(n.output_ports)->Ok_0, prefix, rename);
        boundary_ports_are_bound_by_position(sub, inputs, outputs);
        lemma_idle_shrinks(subgraphs, stack, n.kind);
        let names = instance_names(sub, inputs, outputs)->Ok_0;
        assert(flattened_node(n, prefix, rename, subgraphs, stack) == flattened(
            sub.nodes,
            prefix + n.label() + "/"@,
            names,
            subgraphs,
            stack.push(n.kind),
        ));
    }
}

/// Expanding a graph begins at the top, where names stay as they are, and
/// changes nothing of the graph but its nodes; what its nodes were made from is
/// not needed any more.
pub proof fn expansion_changes_the_nodes_alone(g: GraphView)
    ensures
        ({
            let top = flattened(g.nodes, Seq::empty(), Map::empty(), g.subgraphs, Seq::empty());
            &&& expanded(g) is Ok <==> top is Ok
            &&& top matches Err(e) ==> expanded(g) == Err::<GraphView, ErrorView>(e)
            &&& expanded(g) matches Ok(flat) ==> {
                &&& flat.nodes == top->Ok_0
                &&& flat.executors == g.executors
                &&& flat.input_ports == g.input_ports
                &&& flat.output_ports == g.output_ports
                &&& flat.max_queued_packets == g.max_queued_packets
                &&& flat.max_queued_bytes == g.max_queued_bytes
                &&& flat.max_queue_size == g.max_queue_size
                &&& flat.watchdog_ms == g.watchdog_ms
                &&& flat.buffer_pool_max_bytes == g.buffer_pool_max_bytes
                &&& flat.trace_capacity == g.trace_capacity
                &&& flat.stats == g.stats
                &&& flat.stats_timing == g.stats_timing
                &&& flat.subgraphs == Map::<Seq<char>, SubgraphView>::empty()
                &&& flat.includes.len() == 0
            }
        }),
{
}

} // verus!
