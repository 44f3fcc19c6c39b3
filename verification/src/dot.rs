//! A plan as a drawing in the DOT language.

use crate::config::{ExecutorView, NodeConfig, NodeView};
use crate::plan::{GraphPlan, GraphPlanEdge, GraphPlanNode, PlanEdgeView, PlanNodeView, PlanView};
use crate::text::{
    cat2, cat3, cat5, cat6, cat7, chars_of, contains_text, decimal, decimal_of_size, join, joined,
    same, text_less, text_less_irreflexive, texts,
};
use crate::text_map::ascending;
use vstd::prelude::*;

verus! {

/// A text inside double quotes: backslashes and double quotes get a backslash
/// in front.
pub open spec fn escaped(s: Seq<char>) -> Seq<char>
    decreases s.len(),
{
    if s.len() == 0 {
        Seq::empty()
    } else if s.last() == '\\' {
        escaped(s.drop_last()) + seq!['\\', '\\']
    } else if s.last() == '"' {
        escaped(s.drop_last()) + seq!['\\', '"']
    } else {
        escaped(s.drop_last()).push(s.last())
    }
}

/// The text that an escaped text stands for.
pub open spec fn unescaped(s: Seq<char>) -> Seq<char>
    decreases s.len(),
{
    if s.len() == 0 {
        Seq::empty()
    } else if s[0] == '\\' && s.len() >= 2 {
        seq![s[1]] + unescaped(s.skip(2))
    } else {
        seq![s[0]] + unescaped(s.skip(1))
    }
}

proof fn lemma_escaped_front(s: Seq<char>)
    requires
        s.len() > 0,
    ensures
        escaped(s) == if s[0] == '\\' {
            seq!['\\', '\\'] + escaped(s.skip(1))
        } else if s[0] == '"' {
            seq!['\\', '"'] + escaped(s.skip(1))
        } else {
            seq![s[0]] + escaped(s.skip(1))
        },
    decreases s.len(),
{
    let front = s.drop_last();
    if front.len() == 0 {
        assert(s.skip(1) =~= Seq::empty());
        assert(front =~= Seq::empty());
        assert(escaped(front) =~= Seq::empty());
        assert(escaped(s) =~= if s[0] == '\\' {
            seq!['\\', '\\'] + escaped(s.skip(1))
        } else if s[0] == '"' {
            seq!['\\', '"'] + escaped(s.skip(1))
        } else {
            seq![s[0]] + escaped(s.skip(1))
        });
    } else {
        lemma_escaped_front(front);
        let rest = s.skip(1);
        assert(rest.drop_last() =~= front.skip(1));
        assert(rest.last() == s.last());
        assert(escaped(s) =~= if s[0] == '\\' {
            seq!['\\', '\\'] + escaped(rest)
        } else if s[0] == '"' {
            seq!['\\', '"'] + escaped(rest)
        } else {
            seq![s[0]] + escaped(rest)
        });
    }
}

/// An escaped text stands for the text itself, so different texts stay
/// different.
pub proof fn escape_reads_back(s: Seq<char>)
    ensures
        unescaped(escaped(s)) == s,
    decreases s.len(),
{
    if s.len() > 0 {
        lemma_escaped_front(s);
        let rest = s.skip(1);
        escape_reads_back(rest);
        let whole = escaped(s);
        if s[0] == '\\' || s[0] == '"' {
            assert(whole.skip(2) =~= escaped(rest));
            assert(whole[1] == s[0]);
        } else {
            assert(whole.skip(1) =~= escaped(rest));
            assert(whole[0] == s[0]);
        }
        assert(seq![s[0]] + rest =~= s);
    } else {
        assert(s =~= Seq::empty());
    }
}

/// Escapes a text that goes between double quotes.
pub fn escape(value: &str) -> (r: String)
    ensures
        r@ == escaped(value@),
{
    let chars = chars_of(value);
    let mut out = String::new();
    assert(chars@.take(0) =~= Seq::empty());
    for i in 0..chars.len()
        invariant
            chars@ == value@,
            out@ == escaped(chars@.take(i as int)),
    {
        proof {
            assert(chars@.take(i + 1).drop_last() =~= chars@.take(i as int));
            assert(chars@.take(i + 1).last() == chars@[i as int]);
        }
        let ghost before = out@;
        let c = chars[i];
        if c == '\\' {
            out.push('\\');
            out.push('\\');
            assert(out@ =~= before + seq!['\\', '\\']);
        } else if c == '"' {
            out.push('\\');
            out.push('"');
            assert(out@ =~= before + seq!['\\', '"']);
        } else {
            out.push(c);
        }
    }
    assert(chars@.take(chars@.len() as int) =~= chars@);
    out
}

// --------------------------------------------------------------------- header

/// The first lines of a drawing.
pub open spec fn opening(name: Seq<char>, label: Option<Seq<char>>) -> Seq<char> {
    let title = match label {
        Some(text) => ", labelloc=t, label=\""@ + escaped(text) + "\""@,
        None => Seq::empty(),
    };
    "digraph "@ + name
        + " {\n  rankdir=LR;\n  newrank=true;\n  graph [fontname=\"sans\", nodesep=0.35, ranksep=0.65"@
        + title
        + "];\n  node [fontname=\"sans\", shape=box, style=\"rounded,filled\", fillcolor=white, ordering=out];\n  edge [fontname=\"sans\", fontsize=10];\n"@
}

/// The first lines of a drawing.
pub fn begin(name: &str, label: Option<&str>) -> (r: String)
    ensures
        r@ == opening(
            name@,
            match label {
                Some(text) => Some(text@),
                None => None,
            },
        ),
{
    let title = match label {
        Some(text) => {
            let shown = escape(text);
            cat3(", labelloc=t, label=\"", shown.as_str(), "\"")
        },
        None => String::new(),
    };
    cat5(
        "digraph ",
        name,
        " {\n  rankdir=LR;\n  newrank=true;\n  graph [fontname=\"sans\", nodesep=0.35, ranksep=0.65",
        title.as_str(),
        "];\n  node [fontname=\"sans\", shape=box, style=\"rounded,filled\", fillcolor=white, ordering=out];\n  edge [fontname=\"sans\", fontsize=10];\n",
    )
}

/// What an executor is called in a drawing.
pub open spec fn executor_text(name: Seq<char>, kind: Seq<char>, threads: nat) -> Seq<char> {
    if threads == 0 {
        name + " · "@ + kind
    } else {
        name + " · "@ + kind + " · "@ + decimal(threads) + "t"@
    }
}

/// What an executor is called in a drawing.
pub fn executor_label(name: &str, kind: &str, threads: usize) -> (r: String)
    ensures
        r@ == executor_text(name@, kind@, threads as nat),
{
    if threads == 0 {
        cat3(name, " · ", kind)
    } else {
        let number = decimal_of_size(threads);
        cat6(name, " · ", kind, " · ", number.as_str(), "t")
    }
}

// ---------------------------------------------------------------------- nodes

/// The label of a node.
pub open spec fn node_text(n: PlanNodeView) -> Seq<char> {
    n.name + "\\n"@ + n.kernel + "\\nexecutor: "@ + n.executor + "\\ninputs: "@ + joined(
        n.inputs,
        ", "@,
    ) + "\\noutputs: "@ + joined(n.outputs, ", "@)
}

/// The line of a node.
pub open spec fn node_line(n: PlanNodeView) -> Seq<char> {
    "    node_"@ + decimal(n.index as nat) + " [label=\""@ + escaped(node_text(n)) + "\"];\n"@
}

/// The lines of those of the first `k` nodes that run on an executor.
pub open spec fn node_lines(p: PlanView, executor: Seq<char>, k: nat) -> Seq<char>
    decreases k,
{
    if k == 0 {
        Seq::empty()
    } else if p.nodes[k - 1].executor == executor {
        node_lines(p, executor, (k - 1) as nat) + node_line(p.nodes[k - 1])
    } else {
        node_lines(p, executor, (k - 1) as nat)
    }
}

/// The box of an executor with its nodes.
pub open spec fn cluster(
    p: PlanView,
    index: nat,
    name: Seq<char>,
    kind: Seq<char>,
    threads: nat,
) -> Seq<char> {
    "  subgraph cluster_executor_"@ + decimal(index) + " {\n    label=\""@ + escaped(
        executor_text(name, kind, threads),
    ) + "\";\n    color=\"#888888\";\n"@ + node_lines(p, name, p.nodes.len()) + "  }\n"@
}

/// The type of an executor; an empty text stands for a thread pool.
pub open spec fn executor_kind(e: ExecutorView) -> Seq<char> {
    if e.kind.len() == 0 {
        "ThreadPoolExecutor"@
    } else {
        e.kind
    }
}

/// The boxes of the default executor and of the first `k` others.
pub open spec fn clusters(p: PlanView, k: nat) -> Seq<char>
    decreases k,
{
    if k == 0 {
        cluster(p, 0, "default"@, "ThreadPoolExecutor"@, 0)
    } else {
        let e = p.config.executors[k - 1];
        clusters(p, (k - 1) as nat) + cluster(
            p,
            k,
            e.name,
            executor_kind(e),
            e.num_threads as nat,
        )
    }
}

fn node_text_of(n: &GraphPlanNode) -> (r: String)
    ensures
        r@ == node_text(n@),
{
    let inputs = join(&n.inputs, ", ");
    let outputs = join(&n.outputs, ", ");
    let front = cat5(
        n.name.as_str(),
        "\\n",
        n.kernel.as_str(),
        "\\nexecutor: ",
        n.executor.as_str(),
    );
    cat5(front.as_str(), "\\ninputs: ", inputs.as_str(), "\\noutputs: ", outputs.as_str())
}

fn draw_cluster(plan: &GraphPlan, index: usize, name: &str, kind: &str, threads: usize) -> (r:
    String)
    ensures
        r@ == cluster(plan@, index as nat, name@, kind@, threads as nat),
{
    let number = decimal_of_size(index);
    let label = executor_label(name, kind, threads);
    let shown = escape(label.as_str());
    let mut lines = String::new();
    for k in 0..plan.nodes.len()
        invariant
            lines@ == node_lines(plan@, name@, k as nat),
    {
        let n = &plan.nodes[k];
        assert(plan@.nodes[k as int] == n@);
        if same(n.executor.as_str(), name) {
            let id = decimal_of_size(n.index);
            let text = node_text_of(n);
            let quoted = escape(text.as_str());
            let line = cat5(
                "    node_",
                id.as_str(),
                " [label=\"",
                quoted.as_str(),
                "\"];\n",
            );
            lines.append(line.as_str());
        }
    }
    cat7(
        "  subgraph cluster_executor_",
        number.as_str(),
        " {\n    label=\"",
        shown.as_str(),
        "\";\n    color=\"#888888\";\n",
        lines.as_str(),
        "  }\n",
    )
}

// ---------------------------------------------------------------------- edges

impl NodeView {
    /// The capacity of an input port: its own, else that of the node.
    pub open spec fn capacity(self, port: Seq<char>) -> usize {
        let q = self.input_queues;
        if q.ports.contains(port) && q.limits[q.ports.index_of(port)] is Some {
            q.limits[q.ports.index_of(port)]->Some_0
        } else {
            q.packets
        }
    }
}

/// The attributes of the line from an edge to a node that reads it.
pub open spec fn reading_attributes(e: PlanEdgeView, n: NodeView) -> Seq<Seq<char>> {
    let capacity = n.capacity(e.name);
    let label = seq!["label=\""@ + escaped(e.name) + "\""@];
    let queue = if capacity != 0 {
        seq!["xlabel=\"queue "@ + decimal(capacity as nat) + " packets\""@]
    } else {
        Seq::empty()
    };
    let feedback = if n.back_edges.contains(e.name) {
        seq![
            "style=dashed"@,
            "color=\"#7b61a8\""@,
            "fontcolor=\"#7b61a8\""@,
            "constraint=false"@,
            "tooltip=\"back-edge latest-value register\""@,
        ]
    } else {
        Seq::empty()
    };
    label + queue + feedback
}

/// The lines from an edge to the first `c` nodes that read it.
pub open spec fn reading_lines(p: PlanView, id: Seq<char>, e: PlanEdgeView, c: nat) -> Seq<char>
    decreases c,
{
    if c == 0 {
        Seq::empty()
    } else {
        let consumer = e.consumers[c - 1];
        reading_lines(p, id, e, (c - 1) as nat) + "  "@ + id + " -> node_"@ + decimal(
            consumer as nat,
        ) + " ["@ + joined(
            reading_attributes(e, p.config.nodes[consumer as int]),
            ", "@,
        ) + "];\n"@
    }
}

/// The lines of edge `k`.
pub open spec fn edge_lines(p: PlanView, k: nat) -> Seq<char> {
    let e = p.edges[k as int];
    let id = "edge_"@ + decimal(k);
    let source = if e.graph_input {
        "  graph_input -> "@ + id + " [label=\""@ + escaped(e.name) + "\"];\n"@
    } else {
        Seq::empty()
    };
    let producer = match e.producer {
        Some(i) => "  node_"@ + decimal(i as nat) + " -> "@ + id + ";\n"@,
        None => Seq::empty(),
    };
    let sink = if e.graph_output {
        "  "@ + id + " -> graph_output [label=\""@ + escaped(e.name) + "\"];\n"@
    } else {
        Seq::empty()
    };
    "  "@ + id + " [shape=point, width=0.08, label=\"\"];\n"@ + source + producer
        + reading_lines(p, id, e, e.consumers.len()) + sink
}

pub open spec fn all_edge_lines(p: PlanView, k: nat) -> Seq<char>
    decreases k,
{
    if k == 0 {
        Seq::empty()
    } else {
        all_edge_lines(p, (k - 1) as nat) + edge_lines(p, (k - 1) as nat)
    }
}

/// The drawing of a plan.
pub open spec fn drawing(p: PlanView) -> Seq<char> {
    opening("lmflow_plan"@, Some("lmflow configuration plan"@))
        + "  graph_input [shape=cds, style=filled, fillcolor=\"#e8e8e8\", color=\"#777777\", label=\"graph input\"];\n"@
        + "  graph_output [shape=cds, style=filled, fillcolor=\"#e8e8e8\", color=\"#777777\", label=\"graph output\"];\n"@
        + clusters(p, p.config.executors.len()) + all_edge_lines(p, p.edges.len()) + "}\n"@
}

/// The capacity of an input port.
fn capacity_of(n: &NodeConfig, port: &str) -> (r: usize)
    ensures
        r == n@.capacity(port@),
{
    let ports = &n.input_queues.ports;
    let count: usize = ports.len();
    let ghost q = n@.input_queues;
    for i in 0..count
        invariant
            *ports == n.input_queues.ports,
            count == ports.keys().len(),
            count == ports.values().len(),
            q == n@.input_queues,
            ascending(ports.keys()),
            forall|k: int| 0 <= k < i ==> #[trigger] q.ports[k] != port@,
    {
        if same(ports.key_at(i).as_str(), port) {
            let limit: Option<usize> = ports.value_at(i).packets;
            proof {
                assert(q.ports[i as int] == port@);
                assert(q.ports.contains(port@));
                let j = q.ports.index_of(port@);
                assert(q.ports[j] == port@);
                text_less_irreflexive(port@);
                if i < j {
                    assert(text_less(q.ports[i as int], q.ports[j]));
                }
                assert(q.limits[j] == limit);
            }
            return match limit {
                Some(capacity) => capacity,
                None => n.input_queues.packets,
            };
        }
    }
    n.input_queues.packets
}

fn attributes_of(e: &GraphPlanEdge, n: &NodeConfig) -> (r: Vec<String>)
    ensures
        texts(r@) == reading_attributes(e@, n@),
{
    let mut list: Vec<String> = Vec::new();
    let quoted = escape(e.name.as_str());
    list.push(cat3("label=\"", quoted.as_str(), "\""));
    let capacity: usize = capacity_of(n, e.name.as_str());
    if capacity != 0 {
        let number = decimal_of_size(capacity);
        list.push(cat3("xlabel=\"queue ", number.as_str(), " packets\""));
    }
    if contains_text(&n.back_edges, e.name.as_str()) {
        list.push("style=dashed".to_owned());
        list.push("color=\"#7b61a8\"".to_owned());
        list.push("fontcolor=\"#7b61a8\"".to_owned());
        list.push("constraint=false".to_owned());
        list.push("tooltip=\"back-edge latest-value register\"".to_owned());
    }
    assert(texts(list@) =~= reading_attributes(e@, n@));
    list
}

fn draw_edge(plan: &GraphPlan, k: usize) -> (r: String)
    requires
        plan@.wf(),
        k < plan.edges@.len(),
    ensures
        r@ == edge_lines(plan@, k as nat),
{
    let ghost p = plan@;
    let e = &plan.edges[k];
    assert(p.edges[k as int] == e@);
    let number = decimal_of_size(k);
    let id = cat2("edge_", number.as_str());
    let quoted = escape(e.name.as_str());
    let source = if e.graph_input {
        cat5("  graph_input -> ", id.as_str(), " [label=\"", quoted.as_str(), "\"];\n")
    } else {
        String::new()
    };
    let producer = match e.producer {
        Some(i) => {
            let node = decimal_of_size(i);
            cat5("  node_", node.as_str(), " -> ", id.as_str(), ";\n")
        },
        None => String::new(),
    };
    let mut readers = String::new();
    for c in 0..e.consumers.len()
        invariant
            p == plan@,
            p.wf(),
            k < plan.edges@.len(),
            *e == plan.edges@[k as int],
            p.edges[k as int] == e@,
            readers@ == reading_lines(p, id@, e@, c as nat),
    {
        let consumer: usize = e.consumers[c];
        assert(p.edges[k as int].consumers[c as int] == consumer);
        assert(p.config.nodes.len() == plan.config.nodes@.len());
        let node = &plan.config.nodes[consumer];
        assert(p.config.nodes[consumer as int] == node@);
        let attributes = attributes_of(e, node);
        let list = join(&attributes, ", ");
        let number = decimal_of_size(consumer);
        readers.append("  ");
        readers.append(id.as_str());
        readers.append(" -> node_");
        readers.append(number.as_str());
        readers.append(" [");
        readers.append(list.as_str());
        readers.append("];\n");
    }
    let sink = if e.graph_output {
        cat5("  ", id.as_str(), " -> graph_output [label=\"", quoted.as_str(), "\"];\n")
    } else {
        String::new()
    };
    cat7(
        "  ",
        id.as_str(),
        " [shape=point, width=0.08, label=\"\"];\n",
        source.as_str(),
        producer.as_str(),
        readers.as_str(),
        sink.as_str(),
    )
}

/// Draws a plan.
pub fn render_plan(plan: &GraphPlan) -> (r: String)
    requires
        plan@.wf(),
    ensures
        r@ == drawing(plan@),
{
    let ghost p = plan@;
    let head = begin("lmflow_plan", Some("lmflow configuration plan"));
    let mut boxes = draw_cluster(plan, 0, "default", "ThreadPoolExecutor", 0);
    for k in 0..plan.config.executors.len()
        invariant
            p == plan@,
            boxes@ == clusters(p, k as nat),
    {
        let e = &plan.config.executors[k];
        assert(p.config.executors[k as int] == e@);
        let kind = if e.kind.as_str().is_empty() {
            "ThreadPoolExecutor"
        } else {
            e.kind.as_str()
        };
        let text = draw_cluster(plan, k + 1, e.name.as_str(), kind, e.num_threads);
        boxes.append(text.as_str());
    }
    let mut lines = String::new();
    for k in 0..plan.edges.len()
        invariant
            p == plan@,
            p.wf(),
            lines@ == all_edge_lines(p, k as nat),
    {
        let text = draw_edge(plan, k);
        lines.append(text.as_str());
    }
    cat6(
        head.as_str(),
        "  graph_input [shape=cds, style=filled, fillcolor=\"#e8e8e8\", color=\"#777777\", label=\"graph input\"];\n",
        "  graph_output [shape=cds, style=filled, fillcolor=\"#e8e8e8\", color=\"#777777\", label=\"graph output\"];\n",
        boxes.as_str(),
        lines.as_str(),
        "}\n",
    )
}

impl GraphPlan {
    /// The plan as a drawing in the DOT language.
    pub fn to_dot(&self) -> (r: String)
        requires
            self@.wf(),
        ensures
            r@ == drawing(self@),
    {
        render_plan(self)
    }
}

} // verus!
