//! Looking at a graph: names, depths, statistics and the dump.

use crate::api::{Input, Poller};
use crate::graph::{Graph, Node};
use crate::run_state::{state_name, RunEdge, RunNode, RunView, State};
use crate::text::{
    cat2, cat3, cat4, cat5, cat6, cat7, decimal, decimal_of, decimal_of_signed, decimal_of_size,
    signed_decimal, texts,
};
use crate::wiring::executor_names;
use vstd::prelude::*;

verus! {

/// The statistics of a node at one moment.
pub struct NodeStatsSnapshot {
    pub node_name: String,
    pub kernel_name: String,
    /// Whether a call is under way.
    pub running: bool,
    /// How long it has been under way, in microseconds.
    pub running_for_us: i64,
    pub processed: u64,
    pub errors: u64,
    pub total_process_us: i64,
    pub max_process_us: i64,
    /// How many packets wait at the input ports.
    pub queued: usize,
}

// ------------------------------------------------------------------ the model

/// How long ago `since` was, in microseconds.
pub open spec fn elapsed(since: u64, now: u64) -> i64 {
    if now <= since {
        0
    } else if now - since > i64::MAX {
        i64::MAX
    } else {
        (now - since) as i64
    }
}

impl RunNode {
    /// Whether the numbers of a node are within what can be shown: what waits
    /// can be counted, and the totals did not run past their end.
    pub open spec fn countable(self) -> bool {
        &&& self.waiting(self.queues.len()) <= usize::MAX
        &&& self.stats.total_us >= 0
        &&& self.stats.processed <= i64::MAX
    }

    /// The mean duration of a run, in microseconds.
    pub open spec fn mean_us(self) -> int {
        if self.stats.processed > 0 {
            self.stats.total_us as int / self.stats.processed as int
        } else {
            0
        }
    }

    /// What the node is doing.
    pub open spec fn doing(self, now: u64) -> Seq<char> {
        match self.running_since {
            Some(since) => "RUNNING "@ + signed_decimal(elapsed(since, now) as int / 1000) + "ms"@,
            None => if self.sched.closed {
                "closed"@
            } else if self.sched.opened {
                "idle"@
            } else {
                "new"@
            },
        }
    }

    /// The line of a node in the dump.
    pub open spec fn line(self, now: u64) -> Seq<char> {
        left(self.name, 17) + " "@ + left(self.doing(now), 12) + " "@ + right(
            decimal(self.waiting(self.queues.len())),
            6,
        ) + "  "@ + right(decimal(self.stats.processed as nat), 9) + "  "@ + right(
            decimal(self.stats.errors as nat),
            6,
        ) + "  "@ + right(signed_decimal(self.mean_us()), 6) + "  "@ + right(
            signed_decimal(self.stats.max_us as int),
            6,
        ) + "\n"@
    }
}

/// As many spaces.
pub open spec fn spaces(n: nat) -> Seq<char> {
    Seq::new(n, |i: int| ' ')
}

/// A text at the left of a column.
pub open spec fn left(s: Seq<char>, width: nat) -> Seq<char> {
    if s.len() < width {
        s + spaces((width - s.len()) as nat)
    } else {
        s
    }
}

/// A text at the right of a column.
pub open spec fn right(s: Seq<char>, width: nat) -> Seq<char> {
    if s.len() < width {
        spaces((width - s.len()) as nat) + s
    } else {
        s
    }
}

/// The text of a truth value.
pub open spec fn truth(b: bool) -> Seq<char> {
    if b {
        "true"@
    } else {
        "false"@
    }
}

/// The line of an edge in the dump.
pub open spec fn edge_line(e: RunEdge) -> Seq<char> {
    "edge `"@ + e.name + "` closed="@ + truth(e.closed) + " dropped="@ + decimal(
        e.dropped as nat,
    ) + "\n"@
}

/// The lines of the first `k` nodes.
pub open spec fn node_lines(nodes: Seq<RunNode>, now: u64, k: nat) -> Seq<char>
    decreases k,
{
    if k == 0 {
        Seq::empty()
    } else {
        node_lines(nodes, now, (k - 1) as nat) + nodes[k - 1].line(now)
    }
}

/// The lines of the first `k` edges.
pub open spec fn edge_lines(edges: Seq<RunEdge>, k: nat) -> Seq<char>
    decreases k,
{
    if k == 0 {
        Seq::empty()
    } else {
        edge_lines(edges, (k - 1) as nat) + edge_line(edges[k - 1])
    }
}

impl RunView {
    /// The whole graph as a text.
    pub open spec fn dumped(self, now: u64) -> Seq<char> {
        "graph state="@ + state_name(self.state) + " nodes="@ + decimal(self.nodes.len())
            + " edges="@ + decimal(self.edges.len()) + " queued="@ + decimal(
            self.shared.queued as nat,
        ) + " ("@ + decimal(self.shared.bytes as nat) + " bytes)\n"@
            + "node              state        queued  processed  errors  avg_us  max_us\n"@
            + node_lines(self.nodes, now, self.nodes.len()) + edge_lines(
            self.edges,
            self.edges.len(),
        )
    }
}

// ------------------------------------------------------------------- the code

/// As many spaces.
fn blanks(n: usize) -> (r: String)
    ensures
        r@ == spaces(n as nat),
{
    let mut s = String::new();
    assert(s@ =~= spaces(0));
    for i in 0..n
        invariant
            s@ == spaces(i as nat),
    {
        s.push(' ');
        assert(s@ =~= spaces((i + 1) as nat));
    }
    s
}

/// A text at the left of a column.
fn pad_right(s: &str, width: usize) -> (r: String)
    ensures
        r@ == left(s@, width as nat),
{
    let length: usize = s.unicode_len();
    if length < width {
        cat2(s, blanks(width - length).as_str())
    } else {
        s.to_owned()
    }
}

/// A text at the right of a column.
fn pad_left(s: &str, width: usize) -> (r: String)
    ensures
        r@ == right(s@, width as nat),
{
    let length: usize = s.unicode_len();
    if length < width {
        cat2(blanks(width - length).as_str(), s)
    } else {
        s.to_owned()
    }
}

proof fn lemma_waiting_grows(n: RunNode, k: nat, m: nat)
    requires
        k <= m,
    ensures
        n.waiting(k) <= n.waiting(m),
    decreases m - k,
{
    if k < m {
        lemma_waiting_grows(n, k, (m - 1) as nat);
    }
}

proof fn lemma_depth_grows(g: RunView, edge: int, k: nat, m: nat)
    requires
        k <= m,
    ensures
        g.depth(edge, k) <= g.depth(edge, m),
    decreases m - k,
{
    if k < m {
        lemma_depth_grows(g, edge, k, (m - 1) as nat);
    }
}

/// Whether the statistics are those of a node at a time.
pub open spec fn is_snapshot(st: NodeStatsSnapshot, n: RunNode, now: u64) -> bool {
    &&& st.node_name@ == n.name
    &&& st.kernel_name@ == n.kernel_name
    &&& st.running == (n.running_since is Some)
    &&& st.running_for_us == (match n.running_since {
        Some(since) => elapsed(since, now),
        None => 0,
    })
    &&& st.processed == n.stats.processed
    &&& st.errors == n.stats.errors
    &&& st.total_process_us == n.stats.total_us
    &&& st.max_process_us == n.stats.max_us
    &&& st.queued == n.waiting(n.queues.len())
}

impl Node {
    /// How many packets wait at an input port.
    pub fn queue_len(&self, port: usize) -> (r: usize)
        requires
            port < self@.queues.len(),
        ensures
            r == self@.queues[port as int].len(),
    {
        assert(self@.queues[port as int] == self.input_queues@[port as int]@);
        self.input_queues[port].len()
    }

    /// How many packets wait at all input ports.
    pub fn queued(&self) -> (r: usize)
        requires
            self@.countable(),
        ensures
            r == self@.waiting(self@.queues.len()),
    {
        let mut sum: usize = 0;
        let count: usize = self.input_queues.len();
        for i in 0..count
            invariant
                count == self@.queues.len(),
                self@.waiting(count as nat) <= usize::MAX,
                sum == self@.waiting(i as nat),
        {
            proof {
                lemma_waiting_grows(self@, (i + 1) as nat, count as nat);
            }
            sum += self.queue_len(i);
        }
        sum
    }

    /// The statistics of the node.
    pub fn snapshot(&self, now: u64) -> (r: NodeStatsSnapshot)
        requires
            self@.countable(),
        ensures
            is_snapshot(r, self@, now),
    {
        let running_for_us: i64 = match self.running_since {
            Some(since) => if now <= since {
                0
            } else if now - since > i64::MAX as u64 {
                i64::MAX
            } else {
                (now - since) as i64
            },
            None => 0,
        };
        NodeStatsSnapshot {
            node_name: self.name.clone(),
            kernel_name: self.kernel_name.clone(),
            running: self.running_since.is_some(),
            running_for_us,
            processed: self.stats.processed,
            errors: self.stats.errors,
            total_process_us: self.stats.total_us,
            max_process_us: self.stats.max_us,
            queued: self.queued(),
        }
    }

    /// The line of the node in the dump.
    fn dump_line(&self, now: u64) -> (r: String)
        requires
            self@.countable(),
        ensures
            r@ == self@.line(now),
    {
        let st = self.snapshot(now);
        let doing = if st.running {
            let millis: i64 = st.running_for_us / 1000;
            cat3("RUNNING ", decimal_of_signed(millis).as_str(), "ms")
        } else if self.sched.closed {
            "closed".to_owned()
        } else if self.sched.opened {
            "idle".to_owned()
        } else {
            "new".to_owned()
        };
        let mean: i64 = if st.processed > 0 {
            st.total_process_us / (st.processed as i64)
        } else {
            0
        };
        let front = cat5(
            pad_right(st.node_name.as_str(), 17).as_str(),
            " ",
            pad_right(doing.as_str(), 12).as_str(),
            " ",
            pad_left(decimal_of_size(st.queued).as_str(), 6).as_str(),
        );
        let middle = cat7(
            front.as_str(),
            "  ",
            pad_left(decimal_of(st.processed).as_str(), 9).as_str(),
            "  ",
            pad_left(decimal_of(st.errors).as_str(), 6).as_str(),
            "  ",
            pad_left(decimal_of_signed(mean).as_str(), 6).as_str(),
        );
        let r = cat4(
            middle.as_str(),
            "  ",
            pad_left(decimal_of_signed(st.max_process_us).as_str(), 6).as_str(),
            "\n",
        );
        assert(r@ =~= self@.line(now));
        r
    }
}

impl Graph {
    /// How many packets wait at the consumers of an edge.
    fn edge_depth(&self, edge: usize) -> (r: usize)
        requires
            self@.fits(),
            edge < self@.edges.len(),
            self@.depth(edge as int, self@.edges[edge as int].consumers.len()) <= usize::MAX,
        ensures
            r == self@.depth(edge as int, self@.edges[edge as int].consumers.len()),
    {
        let mut sum: usize = 0;
        assert(self@.edges[edge as int] == self.edges@[edge as int]@);
        let count: usize = self.edges[edge].consumers.len();
        for k in 0..count
            invariant
                self@.fits(),
                edge < self@.edges.len(),
                self@.edges[edge as int] == self.edges@[edge as int]@,
                count == self@.edges[edge as int].consumers.len(),
                self@.depth(edge as int, count as nat) <= usize::MAX,
                sum == self@.depth(edge as int, k as nat),
        {
            let (node, port) = self.edges[edge].consumers[k];
            proof {
                assert(self@.edges[edge as int].consumers[k as int] == (node, port));
                assert(self@.nodes[node as int].fits(self@.edges.len()));
                assert(self@.nodes[node as int] == self.nodes@[node as int]@);
                lemma_depth_grows(self@, edge as int, (k + 1) as nat, count as nat);
            }
            sum += self.nodes[node].queue_len(port);
        }
        sum
    }

    /// How many packets wait at the consumers of the edge of that name.
    pub fn queue_depth(&self, port: &str) -> (r: Option<usize>)
        requires
            self@.fits(),
            self@.edge_by_name.contains_key(port@) ==> ({
                let edge = self@.edge_by_name[port@] as int;
                self@.depth(edge, self@.edges[edge].consumers.len()) <= usize::MAX
            }),
        ensures
            r == (if self@.edge_by_name.contains_key(port@) {
                let edge = self@.edge_by_name[port@] as int;
                Some(self@.depth(edge, self@.edges[edge].consumers.len()) as usize)
            } else {
                None
            }),
    {
        match self.edge_by_name.get(port) {
            Some(e) => {
                assert(self@.edge_by_name.contains_key(port@));
                Some(self.edge_depth(*e))
            },
            None => None,
        }
    }

    /// How many packets the edge of that name has dropped.
    pub fn dropped_count(&self, port: &str) -> (r: Option<u64>)
        requires
            self@.fits(),
        ensures
            r == (if self@.edge_by_name.contains_key(port@) {
                Some(self@.edges[self@.edge_by_name[port@] as int].dropped)
            } else {
                None
            }),
    {
        match self.edge_by_name.get(port) {
            Some(e) => {
                let edge: usize = *e;
                assert(self@.edge_by_name.contains_key(port@));
                assert(self@.edges[edge as int] == self.edges@[edge as int]@);
                Some(self.edges[edge].dropped_count())
            },
            None => None,
        }
    }

    /// The statistics of a node, if there is one of that number.
    pub fn node_stats(&self, i: usize, now: u64) -> (r: Option<NodeStatsSnapshot>)
        requires
            i < self@.nodes.len() ==> self@.nodes[i as int].countable(),
        ensures
            match r {
                Some(st) => i < self@.nodes.len() && is_snapshot(st, self@.nodes[i as int], now),
                None => i >= self@.nodes.len(),
            },
    {
        if i < self.nodes.len() {
            assert(self@.nodes[i as int] == self.nodes@[i as int]@);
            Some(self.nodes[i].snapshot(now))
        } else {
            None
        }
    }

    /// The whole graph as a text.
    pub fn dump(&self, now: u64) -> (r: String)
        requires
            forall|i: int|
                0 <= i < self@.nodes.len() ==> (#[trigger] self@.nodes[i]).countable(),
        ensures
            r@ == self@.dumped(now),
    {
        let front = cat7(
            "graph state=",
            self.state.name(),
            " nodes=",
            decimal_of_size(self.nodes.len()).as_str(),
            " edges=",
            decimal_of_size(self.edges.len()).as_str(),
            " queued=",
        );
        let head = cat6(
            front.as_str(),
            decimal_of_size(self.shared.total_queued()).as_str(),
            " (",
            decimal_of(self.shared.total_queued_bytes()).as_str(),
            " bytes)\n",
            "node              state        queued  processed  errors  avg_us  max_us\n",
        );
        let mut rows = String::new();
        for i in 0..self.nodes.len()
            invariant
                forall|k: int|
                    0 <= k < self@.nodes.len() ==> (#[trigger] self@.nodes[k]).countable(),
                rows@ == node_lines(self@.nodes, now, i as nat),
        {
            assert(self@.nodes[i as int] == self.nodes@[i as int]@);
            rows = cat2(rows.as_str(), self.nodes[i].dump_line(now).as_str());
        }
        let mut lines = String::new();
        for i in 0..self.edges.len()
            invariant
                lines@ == edge_lines(self@.edges, i as nat),
        {
            assert(self@.edges[i as int] == self.edges@[i as int]@);
            let e = &self.edges[i];
            let closed = if e.is_closed() {
                "true"
            } else {
                "false"
            };
            let line = cat7(
                "edge `",
                e.name.as_str(),
                "` closed=",
                closed,
                " dropped=",
                decimal_of(e.dropped_count()).as_str(),
                "\n",
            );
            lines = cat2(lines.as_str(), line.as_str());
        }
        let r = cat3(head.as_str(), rows.as_str(), lines.as_str());
        assert(r@ =~= self@.dumped(now));
        r
    }

    /// A graph input in one line.
    pub fn input_text(&self, input: Input) -> (r: String)
        requires
            input.edge < self@.edges.len(),
        ensures
            r@ == "Input{port:`"@ + self@.edges[input.edge as int].name + "`}"@,
    {
        assert(self@.edges[input.edge as int] == self.edges@[input.edge as int]@);
        cat3("Input{port:`", self.edges[input.edge].name.as_str(), "`}")
    }

    /// A poller in one line.
    pub fn poller_text(&self, p: Poller) -> (r: String)
        requires
            self@.has_poller(p.edge as int, p.index as int),
        ensures
            ({
                let e = self@.edges[p.edge as int];
                r@ == "Poller{port:`"@ + e.name + "`, pending:"@ + decimal(
                    e.pollers[p.index as int].queue.len(),
                ) + "}"@
            }),
    {
        assert(self@.edges[p.edge as int] == self.edges@[p.edge as int]@);
        assert(self@.edges[p.edge as int].pollers[p.index as int]
            == self.edges@[p.edge as int].pollers@[p.index as int]@);
        let e = &self.edges[p.edge];
        let waiting = decimal_of_size(e.pollers[p.index].len());
        cat5("Poller{port:`", e.name.as_str(), "`, pending:", waiting.as_str(), "}")
    }

    // ------------------------------------------------------------------ getters

    pub fn state(&self) -> (r: State)
        ensures
            r == self@.state,
    {
        self.state
    }

    pub fn node_count(&self) -> (r: usize)
        ensures
            r == self@.nodes.len(),
    {
        self.nodes.len()
    }

    /// The name of a node, if there is one of that number.
    pub fn node_name(&self, i: usize) -> (r: Option<&str>)
        ensures
            match r {
                Some(s) => i < self@.nodes.len() && s@ == self@.nodes[i as int].name,
                None => i >= self@.nodes.len(),
            },
    {
        if i < self.nodes.len() {
            assert(self@.nodes[i as int] == self.nodes@[i as int]@);
            Some(self.nodes[i].name.as_str())
        } else {
            None
        }
    }

    /// The names of some edges.
    fn names_of_edges(&self, numbers: &Vec<usize>) -> (r: Vec<String>)
        requires
            forall|k: int| 0 <= k < numbers@.len() ==> #[trigger] numbers@[k] < self@.edges.len(),
        ensures
            texts(r@) == Seq::new(
                numbers@.len(),
                |k: int| self@.edges[numbers@[k] as int].name,
            ),
    {
        let mut out: Vec<String> = Vec::new();
        for i in 0..numbers.len()
            invariant
                forall|k: int|
                    0 <= k < numbers@.len() ==> #[trigger] numbers@[k] < self@.edges.len(),
                out@.len() == i,
                forall|k: int|
                    0 <= k < i ==> (#[trigger] out@[k])@ == self@.edges[numbers@[k] as int].name,
        {
            let edge: usize = numbers[i];
            assert(numbers@[i as int] == edge);
            assert(self@.edges[edge as int] == self.edges@[edge as int]@);
            out.push(self.edges[edge].name.clone());
        }
        assert(texts(out@) =~= Seq::new(
            numbers@.len(),
            |k: int| self@.edges[numbers@[k] as int].name,
        ));
        out
    }

    /// The names of the graph inputs.
    pub fn input_port_names(&self) -> (r: Vec<String>)
        requires
            self@.fits(),
        ensures
            texts(r@) == Seq::new(
                self@.graph_inputs.len(),
                |k: int| self@.edges[self@.graph_inputs[k] as int].name,
            ),
    {
        self.names_of_edges(&self.graph_inputs)
    }

    /// The names of the graph outputs.
    pub fn output_port_names(&self) -> (r: Vec<String>)
        requires
            self@.fits(),
        ensures
            texts(r@) == Seq::new(
                self@.graph_outputs.len(),
                |k: int| self@.edges[self@.graph_outputs[k] as int].name,
            ),
    {
        self.names_of_edges(&self.graph_outputs)
    }

    /// The names of the executors, in the order of the configuration.
    pub fn executor_names(&self) -> (r: Vec<String>)
        ensures
            texts(r@) == executor_names(self@.shared.config.executors),
    {
        let config = self.shared.config();
        let mut out: Vec<String> = Vec::new();
        for i in 0..config.executors.len()
            invariant
                config@ == self@.shared.config,
                out@.len() == i,
                forall|k: int|
                    0 <= k < i ==> (#[trigger] out@[k])@ == self@.shared.config.executors[k].name,
        {
            assert(config@.executors[i as int] == config.executors@[i as int]@);
            out.push(config.executors[i].name.clone());
        }
        assert(texts(out@) =~= executor_names(self@.shared.config.executors));
        out
    }

    /// The value of a counter of the kernels.
    pub fn counter_value(&self, name: &str) -> (r: i64)
        ensures
            r == self@.shared.counter(name@),
    {
        self.shared.counter_value(name)
    }
}

} // verus!
