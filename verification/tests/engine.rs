//! Graphs that run: packets go in, kernels are called, packets come out.

use lmflow::api::{Input, PollStep, Poller, SendStep};
use lmflow::boundary::flow_ctx_require_option_i64;
use lmflow::builtin::{PassThrough, Sink};
use lmflow::config::{ExecutorConfig, GraphConfig, InputPolicyConfig, NodeConfig};
use lmflow::context::Context;
use lmflow::graph::Graph;
use lmflow::lifecycle::{Blueprint, KernelContract};
use lmflow::packet::{Packet, TypeNames};
use lmflow::run_state::{Action, KernelPhase, State};
use lmflow::runtime::{GraphShared, LastError, LogLine, LOG_WARN};
use lmflow::status::{Error, CANCELLED, CLOSED, INVALID_ARG, KERNEL, NOT_FOUND, OK, STATE, WOULD_BLOCK};
use lmflow::timestamp::Timestamp;

// ---------------------------------------------------------------- the kernels

/// The type of payloads that are numbers.
const NUMBER: u64 = 3;

/// The type that belongs to objects of the host.
const HOST_OBJECT: u64 = 99;

enum Kernel {
    Pass(PassThrough),
    Split,
    Scale(i64),
    Zip,
    Consume(Sink),
    Normalize,
    SlowSink,
    Failing,
}

fn kernel(name: &str) -> Kernel {
    match name {
        "PassThroughKernel" => Kernel::Pass(PassThrough {}),
        "SplitKernel" => Kernel::Split,
        "ScaleKernel" => Kernel::Scale(1),
        "ZipKernel" => Kernel::Zip,
        "SinkKernel" => Kernel::Consume(Sink::new()),
        "NormalizeKernel" => Kernel::Normalize,
        "SlowSink" => Kernel::SlowSink,
        "FailingKernel" => Kernel::Failing,
        _ => panic!("no kernel {name}"),
    }
}

fn contract(node: &NodeConfig) -> KernelContract {
    let wanted = if node.kernel == "ScaleKernel" { NUMBER } else { 0 };
    let mut required = Vec::new();
    if node.kernel == "NormalizeKernel" {
        required.push("calibration".to_string());
    }
    KernelContract {
        input_types: vec![wanted; node.input_ports.len()],
        output_types: vec![],
        required_side_packets: required,
    }
}

/// The status code of a call of a kernel, and how long it took.
fn call(k: &mut Kernel, phase: KernelPhase, cc: &mut Context, shared: &mut GraphShared) -> (i32, i64) {
    let result = match (k, phase) {
        (Kernel::Pass(p), KernelPhase::Process) => p.process(cc),
        (Kernel::Split, KernelPhase::Process) => {
            for out in 0..cc.out_ports().len() {
                cc.forward(0, out).unwrap();
            }
            Ok(())
        }
        (Kernel::Scale(factor), KernelPhase::Open) => {
            let mut last = LastError::new();
            let (code, value) = flow_ctx_require_option_i64(&mut last, Some(&*cc), Some("factor"));
            *factor = value.unwrap_or(1);
            return (code, 1);
        }
        (Kernel::Scale(factor), KernelPhase::Process) => {
            let p = cc.take_input(0);
            let value = p.payload.expect("a number") as i64 * *factor;
            cc.emit(0, Packet::new(value as u64).of_type(NUMBER, 8))
        }
        (Kernel::Zip, KernelPhase::Process) => match (cc.input(0), cc.input(1)) {
            (Some(a), Some(b)) => {
                let sum = a.payload.unwrap_or(0) + b.payload.unwrap_or(0);
                cc.emit(0, Packet::new(sum))
            }
            _ => Ok(()),
        },
        (Kernel::Consume(s), KernelPhase::Process) => s.process(&*cc, shared, true),
        (Kernel::Consume(s), KernelPhase::Close) => s.close(&*cc, shared, true),
        (Kernel::Normalize, KernelPhase::Open) => {
            assert!(cc.side_packet("calibration").is_some());
            if cc.options().has("scale") {
                Ok(())
            } else {
                cc.set_error("缺少必需参数 `scale`");
                return (KERNEL, 1);
            }
        }
        (Kernel::SlowSink, KernelPhase::Process) => return (OK, 3000),
        (Kernel::Failing, KernelPhase::Process) => {
            cc.set_error("broken on purpose");
            return (KERNEL, 1);
        }
        _ => Ok(()),
    };
    match result {
        Ok(()) => (OK, 1),
        Err(e) => {
            cc.set_error(&e.text());
            (e.code(), 1)
        }
    }
}

// ----------------------------------------------------------------- the driver

struct Bench {
    graph: Graph,
    kernels: Vec<Kernel>,
    now: u64,
}

fn policy(kind: &str, capacity: usize) -> InputPolicyConfig {
    InputPolicyConfig { kind: kind.to_string(), capacity, sets: vec![] }
}

fn names(list: &[&str]) -> Vec<String> {
    list.iter().map(|s| s.to_string()).collect()
}

fn node(name: &str, kernel: &str, inputs: &[&str], outputs: &[&str]) -> NodeConfig {
    NodeConfig {
        name: name.to_string(),
        kernel: kernel.to_string(),
        input_ports: names(inputs),
        output_ports: names(outputs),
        ..NodeConfig::default()
    }
}

fn config(nodes: Vec<NodeConfig>, inputs: &[&str], outputs: &[&str]) -> GraphConfig {
    GraphConfig {
        nodes,
        input_ports: names(inputs),
        output_ports: names(outputs),
        ..GraphConfig::default()
    }
}

fn pool(name: &str, threads: usize) -> ExecutorConfig {
    ExecutorConfig {
        name: name.to_string(),
        kind: "ThreadPoolExecutor".to_string(),
        num_threads: threads,
        affinity: vec![],
        priority: 0,
    }
}

fn on(executor: &str, n: NodeConfig) -> NodeConfig {
    NodeConfig { executor: executor.to_string(), ..n }
}

fn with_options(text: &str, n: NodeConfig) -> NodeConfig {
    NodeConfig { options: serde_yaml::from_str(text).unwrap(), ..n }
}

fn build(cfg: GraphConfig) -> Result<Bench, Error> {
    build_logged(cfg, &mut vec![])
}

fn build_logged(cfg: GraphConfig, lines: &mut Vec<LogLine>) -> Result<Bench, Error> {
    cfg.check_host_supported()?;
    let kernels = cfg.nodes.iter().map(|n| kernel(&n.kernel)).collect();
    let contracts = cfg.nodes.iter().map(contract).collect();
    let graph = Graph::from_config(cfg, &contracts, TypeNames::new(), lines)?;
    Ok(Bench { graph, kernels, now: 1 })
}

impl Bench {
    fn call(&mut self, n: usize, phase: KernelPhase) -> (i32, i64) {
        self.now += 10;
        call(&mut self.kernels[n], phase, &mut self.graph.nodes[n].ctx, &mut self.graph.shared)
    }

    fn start(&mut self) -> Result<(), Error> {
        let mut next = self.graph.start(self.now)?;
        while let Some(n) = next {
            let (rc, us) = self.call(n, KernelPhase::Open);
            next = self.graph.resume_start(rc, us, self.now)?;
        }
        Ok(())
    }

    fn run(&mut self, first: Action) -> bool {
        let mut action = first;
        loop {
            match action {
                Action::Done(did) => return did,
                Action::Call(n, phase) => {
                    let (rc, us) = self.call(n, phase);
                    action = self.graph.resume_step(rc, us, self.now);
                }
            }
        }
    }

    fn pump(&mut self) -> bool {
        let first = self.graph.pump_step(self.now);
        self.run(first)
    }

    fn input(&self, port: &str) -> Input {
        self.graph.input(port).unwrap()
    }

    fn send(&mut self, input: Input, p: Packet) -> Result<(), Error> {
        let mut pumped = None;
        while self.graph.send(input, p, pumped)? == SendStep::Pump {
            pumped = Some(self.pump());
        }
        Ok(())
    }

    fn next(&mut self, p: Poller) -> Option<Packet> {
        let mut pumped = None;
        loop {
            match self.graph.next_packet(p, pumped) {
                PollStep::Got(packet) => return Some(packet),
                PollStep::End => return None,
                PollStep::Pump => pumped = Some(self.pump()),
            }
        }
    }

    fn wait_until_idle(&mut self) -> Result<(), Error> {
        while self.pump() {}
        self.graph.idle_result()
    }

    fn wait_done(&mut self) -> Result<(), Error> {
        let mut pumped = None;
        while self.graph.wait_done(pumped) {
            pumped = Some(self.pump());
        }
        loop {
            let first = self.graph.try_advance_closing(self.now);
            if !self.run(first) {
                return self.graph.finish_wait();
            }
        }
    }

    fn tear_down(&mut self) {
        let mut next = self.graph.teardown(0, self.now);
        while let Some(n) = next {
            let (rc, us) = self.call(n, KernelPhase::Close);
            next = self.graph.resume_teardown(rc, us, self.now);
        }
    }

    fn drain(&mut self, p: Poller) -> Vec<u64> {
        let mut got = Vec::new();
        while let Some(packet) = self.graph.try_next(p) {
            got.push(packet.payload.unwrap());
        }
        got
    }
}

fn packet(i: u64) -> Packet {
    Packet::new(i).at(Timestamp(i as i64))
}

fn simple_config() -> GraphConfig {
    config(vec![node("p", "PassThroughKernel", &["in"], &["out"])], &["in"], &["out"])
}

fn simple_graph() -> Bench {
    build(simple_config()).unwrap()
}

fn refusal(cfg: GraphConfig) -> String {
    match build(cfg) {
        Ok(_) => panic!("the graph was built"),
        Err(e) => e.text(),
    }
}

// -------------------------------------------------------------- whole graphs

#[test]
fn passthrough_pipeline() {
    let mut g = build(config(
        vec![
            node("n1", "PassThroughKernel", &["in"], &["mid"]),
            node("n2", "PassThroughKernel", &["mid"], &["out"]),
        ],
        &["in"],
        &["out"],
    ))
    .unwrap();
    let poller = g.graph.add_poller("out").unwrap();
    g.start().unwrap();
    assert_eq!(g.graph.state(), State::Running);

    let input = g.input("in");
    let mut got = Vec::new();
    for i in 0..10u64 {
        g.send(input, packet(i)).unwrap();
        let p = g.next(poller).expect("应有输出");
        got.push((p.payload.unwrap(), p.timestamp().0));
    }
    assert_eq!(got, (0..10u64).map(|i| (i, i as i64)).collect::<Vec<_>>());

    g.graph.close_all_inputs();
    g.wait_done().unwrap();
    assert_eq!(g.graph.state(), State::Terminated);
    assert!(g.next(poller).is_none());
}

#[test]
fn cpp_kernel_reads_options_and_types() {
    let mut g = build(config(
        vec![with_options("{ factor: 7 }", node("s", "ScaleKernel", &["in"], &["out"]))],
        &["in"],
        &["out"],
    ))
    .unwrap();
    let poller = g.graph.add_poller("out").unwrap();
    g.start().unwrap();
    let input = g.input("in");
    g.send(input, packet(6).of_type(NUMBER, 8).at(Timestamp(0))).unwrap();
    g.graph.close_all_inputs();
    g.wait_done().unwrap();
    let out = g.graph.try_next(poller).expect("应有输出");
    assert_eq!(out.type_id(), NUMBER);
    assert_eq!(out.payload, Some(42));
}

#[test]
fn typed_contract_rejects_mismatch() {
    let mut g = build(config(
        vec![with_options("{ factor: 2 }", node("s", "ScaleKernel", &["in"], &["out"]))],
        &["in"],
        &["out"],
    ))
    .unwrap();
    g.start().unwrap();
    let input = g.input("in");
    g.send(input, Packet::new(1).at(Timestamp(0))).unwrap();
    g.graph.close_all_inputs();
    let msg = g.wait_done().unwrap_err().text();
    assert!(msg.contains("类型不符"), "{msg}");
    assert!(msg.contains("输入口"), "{msg}");
}

#[test]
fn stateful_sum_emits_on_close() {
    let mut g = build(config(
        vec![
            node("pass", "PassThroughKernel", &["in"], &["mid"]),
            node("sink", "SinkKernel", &["mid"], &[]),
        ],
        &["in"],
        &["mid"],
    ))
    .unwrap();
    let poller = g.graph.add_poller("mid").unwrap();
    g.start().unwrap();
    let input = g.input("in");
    for i in 0..3u64 {
        g.send(input, packet(i)).unwrap();
    }
    g.graph.close_all_inputs();
    g.wait_done().unwrap();
    assert_eq!(g.drain(poller).len(), 3);
}

fn fan_out(executor: &str) -> GraphConfig {
    config(
        vec![
            on(executor, node("sp", "SplitKernel", &["in"], &["a", "b"])),
            on(executor, node("pa", "PassThroughKernel", &["a"], &["oa"])),
            on(executor, node("pb", "PassThroughKernel", &["b"], &["ob"])),
        ],
        &["in"],
        &["oa", "ob"],
    )
}

#[test]
fn fanout_delivers_to_every_consumer() {
    let mut g = build(fan_out("")).unwrap();
    let pa = g.graph.add_poller("oa").unwrap();
    let pb = g.graph.add_poller("ob").unwrap();
    g.start().unwrap();
    let input = g.input("in");
    g.send(input, Packet::new(42).at(Timestamp(0))).unwrap();
    g.graph.close_all_inputs();
    g.wait_done().unwrap();
    assert_eq!(g.graph.try_next(pa).expect("分支 a 应收到").payload, Some(42));
    assert_eq!(g.graph.try_next(pb).expect("分支 b 应收到").payload, Some(42));
}

#[test]
fn multiple_pollers_on_same_port() {
    let mut g = simple_graph();
    let p1 = g.graph.add_poller("out").unwrap();
    let p2 = g.graph.add_poller("out").unwrap();
    g.start().unwrap();
    let input = g.input("in");
    g.send(input, Packet::new(1).at(Timestamp(0))).unwrap();
    g.graph.close_all_inputs();
    g.wait_done().unwrap();
    assert!(g.graph.try_next(p1).is_some());
    assert!(g.graph.try_next(p2).is_some());
}

// ------------------------------------------------------------------ refusals

#[test]
fn rejects_cycle() {
    let msg = refusal(config(
        vec![
            node("a", "PassThroughKernel", &["y"], &["x"]),
            node("b", "PassThroughKernel", &["x"], &["y"]),
        ],
        &[],
        &[],
    ));
    assert!(msg.contains("成环"), "{msg}");
}

#[test]
fn empty_graph_terminates_cleanly() {
    let mut g = build(config(vec![], &[], &[])).unwrap();
    g.start().unwrap();
    g.graph.close_all_inputs();
    g.wait_done().unwrap();
    assert_eq!(g.graph.state(), State::Terminated);
}

#[test]
fn dangling_output_is_allowed() {
    let mut g = build(config(
        vec![node("n", "PassThroughKernel", &["in"], &["dangling"])],
        &["in"],
        &[],
    ))
    .unwrap();
    g.start().unwrap();
    let input = g.input("in");
    for i in 0..5u64 {
        g.send(input, packet(i)).unwrap();
    }
    g.graph.close_all_inputs();
    g.wait_done().unwrap();
    assert_eq!(g.graph.node_stats(0, g.now).unwrap().processed, 5);
}

#[test]
fn rejects_graph_output_with_no_producer() {
    let msg = refusal(config(vec![node("n", "SinkKernel", &["in"], &[])], &["in"], &["out"]));
    assert!(msg.contains("没有任何节点产出"), "{msg}");
}

#[test]
fn rejects_duplicate_producer() {
    let msg = refusal(config(
        vec![
            node("a", "PassThroughKernel", &["in"], &["dup"]),
            node("b", "PassThroughKernel", &["in"], &["dup"]),
        ],
        &["in"],
        &[],
    ));
    assert!(msg.contains("多个生产者"), "{msg}");
}

#[test]
fn rejects_unconnected_input() {
    let msg = refusal(config(
        vec![node("a", "PassThroughKernel", &["nowhere"], &["out"])],
        &[],
        &[],
    ));
    assert!(msg.contains("找不到生产者"), "{msg}");
}

#[test]
fn rejects_name_clash_between_graph_input_and_node_output() {
    let msg = refusal(config(
        vec![node("a", "PassThroughKernel", &["in"], &["in"])],
        &["in"],
        &[],
    ));
    assert!(msg.contains("名字冲突"), "{msg}");
}

#[test]
fn rejects_source_node() {
    let msg = refusal(config(vec![node("src", "PassThroughKernel", &[], &["out"])], &[], &[]));
    assert!(msg.contains("没有输入口"), "{msg}");
}

#[test]
fn rejects_unknown_executor() {
    let msg = refusal(config(
        vec![on("ghost", node("a", "PassThroughKernel", &["in"], &["out"]))],
        &["in"],
        &[],
    ));
    assert!(msg.contains("未定义的 executor"), "{msg}");
}

// ------------------------------------------------------------------ life cycle

#[test]
fn send_before_start_is_state_error() {
    let mut g = simple_graph();
    let input = g.input("in");
    let err = g.send(input, Packet::new(1).at(Timestamp(0))).unwrap_err();
    assert_eq!(err.code(), STATE);
}

#[test]
fn double_start_is_state_error() {
    let mut g = simple_graph();
    g.start().unwrap();
    assert_eq!(g.start().unwrap_err().code(), STATE);
}

#[test]
fn add_poller_after_start_is_rejected() {
    let mut g = simple_graph();
    g.start().unwrap();
    assert!(g.graph.add_poller("out").is_err());
}

#[test]
fn send_after_close_is_closed_error() {
    let mut g = simple_graph();
    g.start().unwrap();
    let input = g.input("in");
    g.graph.close_all_inputs();
    let err = g.send(input, Packet::new(1).at(Timestamp(0))).unwrap_err();
    assert_eq!(err.code(), CLOSED);
}

#[test]
fn unset_timestamp_on_graph_input_is_rejected() {
    let mut g = simple_graph();
    g.start().unwrap();
    let input = g.input("in");
    let err = g.send(input, Packet::new(1)).unwrap_err();
    assert_eq!(err.code(), INVALID_ARG);
    assert!(err.text().contains("时间戳"), "{}", err.text());
}

#[test]
fn timestamps_must_be_strictly_increasing() {
    let mut g = simple_graph();
    g.start().unwrap();
    let input = g.input("in");
    g.send(input, Packet::new(1).at(Timestamp(5))).unwrap();
    let err = g.send(input, Packet::new(2).at(Timestamp(5))).unwrap_err();
    assert!(err.text().contains("递增"), "{}", err.text());
    let err = g.send(input, Packet::new(3).at(Timestamp(4))).unwrap_err();
    assert!(err.text().contains("递增"), "{}", err.text());
}

#[test]
fn unknown_port_names_are_not_found() {
    let mut g = simple_graph();
    assert_eq!(g.graph.input("ghost").unwrap_err().code(), NOT_FOUND);
    assert_eq!(g.graph.add_poller("ghost").unwrap_err().code(), NOT_FOUND);
}

#[test]
fn cancel_makes_wait_done_report_cancelled() {
    let mut g = simple_graph();
    g.start().unwrap();
    g.graph.cancel();
    assert_eq!(g.wait_done().unwrap_err().code(), CANCELLED);
}

// ----------------------------------------------------------------- inspection

#[test]
fn introspection_reports_topology() {
    let g = simple_graph();
    assert_eq!(g.graph.node_count(), 1);
    assert_eq!(g.graph.node_name(0), Some("p"));
    assert_eq!(g.graph.input_port_names(), vec!["in"]);
    assert_eq!(g.graph.output_port_names(), vec!["out"]);
    assert_eq!(g.graph.queue_depth("in"), Some(0));
    assert!(g.graph.dump(0).contains("node"));
}

#[test]
fn handles_show_their_ports() {
    let mut g = simple_graph();
    let poller = g.graph.add_poller("out").unwrap();
    g.start().unwrap();
    let input = g.input("in");
    g.send(input, packet(0)).unwrap();
    g.wait_until_idle().unwrap();
    assert_eq!(g.graph.input_text(input), "Input{port:`in`}");
    assert_eq!(g.graph.poller_text(poller), "Poller{port:`out`, pending:1}");
}

#[test]
fn node_stats_track_processing() {
    let mut g = simple_graph();
    let poller = g.graph.add_poller("out").unwrap();
    g.start().unwrap();
    let input = g.input("in");
    for i in 0..3u64 {
        g.send(input, packet(i)).unwrap();
        g.next(poller).unwrap();
    }
    let st = g.graph.node_stats(0, g.now).unwrap();
    assert_eq!(st.node_name, "p");
    assert_eq!(st.kernel_name, "PassThroughKernel");
    assert_eq!(st.processed, 3);
    assert_eq!(st.errors, 0);
    assert!(!st.running);
}

#[test]
fn global_watermark_blocks_input_when_exceeded() {
    let mut g = build(GraphConfig { max_queued_packets: 2, ..simple_config() }).unwrap();
    g.start().unwrap();
    let input = g.input("in");
    let mut sent = 0;
    for i in 0..10u64 {
        if g.graph.try_send(input, packet(i)).is_err() {
            break;
        }
        sent += 1;
    }
    assert!(sent < 10, "{sent}");
}

#[test]
fn blocking_send_applies_backpressure_on_pool_instead_of_erroring() {
    let mut g = build(GraphConfig {
        executors: vec![pool("cpu", 2)],
        max_queued_packets: 4,
        ..config(vec![on("cpu", node("s", "SlowSink", &["in"], &[]))], &["in"], &[])
    })
    .unwrap();
    g.start().unwrap();
    let input = g.input("in");
    for i in 0..30u64 {
        if let Err(e) = g.send(input, packet(i)) {
            panic!("send {i}: {}", e.text());
        }
    }
    g.graph.close_all_inputs();
    g.wait_done().unwrap();
    assert_eq!(g.graph.node_stats(0, g.now).unwrap().processed, 30);
}

#[test]
fn watchdog_warns_on_slow_kernel() {
    let mut g = build(GraphConfig {
        executors: vec![pool("cpu", 1)],
        watchdog_ms: 1,
        ..config(vec![on("cpu", node("s", "SlowSink", &["in"], &[]))], &["in"], &[])
    })
    .unwrap();
    g.start().unwrap();
    let input = g.input("in");
    g.send(input, packet(0)).unwrap();
    g.graph.close_all_inputs();
    g.wait_done().unwrap();
    let log = g.graph.shared.take_log();
    assert!(log.iter().any(|l| l.text.contains("watchdog")));
}

#[test]
fn multiple_observers_and_poller_all_receive() {
    let mut g = simple_graph();
    g.graph.observe("out", 1).unwrap();
    g.graph.observe("out", 2).unwrap();
    let poller = g.graph.add_poller("out").unwrap();
    g.start().unwrap();
    let input = g.input("in");
    for i in 0..5u64 {
        g.send(input, packet(i)).unwrap();
    }
    g.graph.close_all_inputs();
    g.wait_done().unwrap();

    let want: Vec<u64> = (0..5).collect();
    let notices = g.graph.take_notices();
    for observer in [1, 2] {
        let seen: Vec<u64> = notices
            .iter()
            .filter(|n| n.observer == observer)
            .map(|n| n.packet.payload.unwrap())
            .collect();
        assert_eq!(seen, want);
    }
    assert_eq!(g.drain(poller), want);
    assert!(g.graph.take_notices().is_empty());
}

#[test]
fn dropping_graph_still_closes_opened_kernels() {
    let mut g = build(config(vec![node("s", "SinkKernel", &["in"], &[])], &["in"], &[])).unwrap();
    g.start().unwrap();
    let input = g.input("in");
    g.send(input, Packet::new(1).at(Timestamp(0))).unwrap();
    assert_eq!(g.graph.counter_value("sink.closed"), 0);
    g.tear_down();
    assert_eq!(g.graph.counter_value("sink.closed"), 1);
}

fn normalizer(options: Option<&str>) -> Bench {
    let plain = node("norm", "NormalizeKernel", &["in"], &["out"]);
    let n = match options {
        Some(text) => with_options(text, plain),
        None => plain,
    };
    build(config(vec![n], &["in"], &["out"])).unwrap()
}

#[test]
fn missing_required_side_packet_is_rejected_at_start() {
    let mut g = normalizer(Some("{ scale: 0.5 }"));
    let msg = g.start().unwrap_err().text();
    assert!(msg.contains("calibration"), "{msg}");
    assert!(msg.contains("norm"), "{msg}");
}

#[test]
fn side_packet_is_visible_to_kernel() {
    let mut g = normalizer(Some("{ scale: 0.5, mean: [1.0, 2.0] }"));
    g.graph.set_side_packet("calibration", Packet::new(12), HOST_OBJECT).unwrap();
    g.start().unwrap();
    assert!(g.graph.set_side_packet("late", Packet::new(0), HOST_OBJECT).is_err());
    g.graph.close_all_inputs();
    g.wait_done().unwrap();
}

#[test]
fn missing_required_option_fails_with_reason() {
    let mut g = normalizer(None);
    g.graph.set_side_packet("calibration", Packet::new(0), HOST_OBJECT).unwrap();
    let msg = g.start().unwrap_err().text();
    assert!(msg.contains("scale"), "{msg}");
    assert!(msg.contains("norm"), "{msg}");
}

#[test]
fn timestamp_monotonicity_survives_queue_drain() {
    let mut g = simple_graph();
    let poller = g.graph.add_poller("out").unwrap();
    g.start().unwrap();
    let input = g.input("in");
    g.send(input, Packet::new(1).at(Timestamp(100))).unwrap();
    assert!(g.next(poller).is_some());
    assert_eq!(g.graph.queue_depth("in"), Some(0));

    let err = g.send(input, Packet::new(2).at(Timestamp(50))).unwrap_err();
    assert!(err.text().contains("递增"), "{}", err.text());
    let err = g.send(input, Packet::new(3).at(Timestamp(100))).unwrap_err();
    assert!(err.text().contains("递增"), "{}", err.text());
    g.send(input, Packet::new(4).at(Timestamp(101))).unwrap();
}

#[test]
fn warns_about_unconsumed_ports() {
    let mut lines = vec![];
    let built = build_logged(
        config(
            vec![node("p", "PassThroughKernel", &["in"], &["nowhere"])],
            &["in", "unused"],
            &[],
        ),
        &mut lines,
    );
    assert!(built.is_ok());
    assert_eq!(LOG_WARN, 1);
    let warnings: Vec<String> =
        lines.into_iter().filter(|l| l.level == LOG_WARN).map(|l| l.text).collect();
    let w = warnings.join("\n");
    assert!(w.contains("unused"), "{w}");
    assert!(w.contains("nowhere"), "{w}");
}

#[test]
fn refused_graphs_warn_about_unconsumed_ports_too() {
    let looped = config(
        vec![
            node("a", "ZipKernel", &["in", "back"], &["mid"]),
            node("b", "PassThroughKernel", &["mid"], &["back"]),
        ],
        &["in", "unused"],
        &[],
    );
    let mut lines = vec![];
    assert!(build_logged(looped, &mut lines).is_err());
    assert_eq!(lines.len(), 1);
    assert_eq!(lines[0].level, LOG_WARN);
    assert!(lines[0].text.contains("图输入口 `unused` 没有任何节点消费它"), "{}", lines[0].text);

    let lost = on("nope", node("p", "PassThroughKernel", &["in"], &["nowhere"]));
    let mut lines = vec![];
    assert!(build_logged(config(vec![lost], &["in"], &[]), &mut lines).is_err());
    assert!(lines[0].text.contains("节点 `p` 的输出口 `nowhere`"), "{}", lines[0].text);

    let dangling = node("p", "PassThroughKernel", &["ghost"], &["nowhere"]);
    let mut lines = vec![];
    assert!(build_logged(config(vec![dangling], &["in"], &[]), &mut lines).is_err());
    assert!(lines.is_empty());
}

#[test]
fn kernels_come_after_the_connections() {
    let mut lines = vec![];
    let cfg = config(
        vec![node("p", "PassThroughKernel", &["in"], &["out", "spare"])],
        &["in"],
        &["out"],
    );
    let drawn = match Blueprint::draw(cfg, &mut lines) {
        Ok(b) => b,
        Err(e) => panic!("{}", e.text()),
    };
    assert_eq!(lines.len(), 1);
    assert_eq!(drawn.config().nodes[0].kernel, "PassThroughKernel");
    let contracts = drawn.config().nodes.iter().map(contract).collect();
    assert!(drawn.build(&contracts, TypeNames::new()).is_ok());
    let mut lines = vec![];
    assert!(Blueprint::draw(config(vec![], &["in", "in"], &[]), &mut lines).is_err());
    assert!(lines.is_empty());
}

// -------------------------------------------------------------- input policies

fn zipper(kind: &str) -> Bench {
    let n = NodeConfig {
        input_policy: policy(kind, 0),
        ..node("z", "ZipKernel", &["A:x", "B:y"], &["out"])
    };
    build(config(vec![n], &["x", "y"], &["out"])).unwrap()
}

#[test]
fn sync_waits_for_all_inputs() {
    let mut g = zipper("sync");
    let poller = g.graph.add_poller("out").unwrap();
    g.start().unwrap();
    let (x, y) = (g.input("x"), g.input("y"));
    g.send(x, Packet::new(1).at(Timestamp(0))).unwrap();
    g.wait_until_idle().unwrap();
    assert!(g.graph.try_next(poller).is_none());

    g.send(y, Packet::new(2).at(Timestamp(0))).unwrap();
    g.wait_until_idle().unwrap();
    assert_eq!(g.graph.try_next(poller).expect("齐备后应产出").payload, Some(3));
    g.graph.close_all_inputs();
    let _ = g.wait_done();
}

#[test]
fn immediate_fires_on_any_input() {
    let mut g = zipper("immediate");
    g.graph.add_poller("out").unwrap();
    g.start().unwrap();
    let x = g.input("x");
    g.send(x, Packet::new(1).at(Timestamp(0))).unwrap();
    g.wait_until_idle().unwrap();
    assert_eq!(g.graph.node_stats(0, g.now).unwrap().processed, 1);
    g.graph.close_all_inputs();
    let _ = g.wait_done();
}

fn fixed_size(executor: &str, capacity: usize) -> GraphConfig {
    let n = NodeConfig {
        input_policy: policy("fixed_size", capacity),
        ..on(executor, node("p", "PassThroughKernel", &["in"], &["out"]))
    };
    config(vec![n], &["in"], &["out"])
}

#[test]
fn fixed_size_drops_oldest_and_reports_it() {
    let mut g = build(fixed_size("", 2)).unwrap();
    let poller = g.graph.add_poller("out").unwrap();
    g.start().unwrap();
    let input = g.input("in");
    for i in 0..10u64 {
        g.send(input, packet(i)).unwrap();
    }
    assert_eq!(g.graph.queue_depth("in"), Some(2));
    assert_eq!(g.graph.dropped_count("in"), Some(8));
    g.wait_until_idle().unwrap();
    assert_eq!(g.drain(poller), vec![8, 9]);
    g.graph.close_all_inputs();
    let _ = g.wait_done();
}

#[test]
fn fixed_size_with_pool_bounds_memory() {
    let mut g = build(GraphConfig {
        executors: vec![pool("cpu", 2)],
        ..fixed_size("cpu", 4)
    })
    .unwrap();
    g.graph.add_poller("out").unwrap();
    g.start().unwrap();
    let input = g.input("in");
    for i in 0..500u64 {
        g.send(input, packet(i)).unwrap();
    }
    assert!(g.graph.queue_depth("in").unwrap() <= 4);
    g.graph.close_all_inputs();
    g.wait_done().unwrap();
}

#[test]
fn fixed_size_rejects_zero_capacity() {
    let msg = refusal(GraphConfig { output_ports: vec![], ..fixed_size("", 0) });
    assert!(msg.contains("capacity"), "{msg}");
}

#[test]
fn rejects_unknown_policy() {
    let n = NodeConfig {
        input_policy: policy("nonsense", 0),
        ..node("p", "PassThroughKernel", &["in"], &["out"])
    };
    let msg = refusal(config(vec![n], &["in"], &[]));
    assert!(msg.contains("未知 input_policy"), "{msg}");
}

// ------------------------------------------------------- nodes on an executor

#[test]
fn pool_declared_but_unused_is_still_valid() {
    let g = build(GraphConfig { executors: vec![pool("cpu", 2)], ..simple_config() }).unwrap();
    assert_eq!(g.graph.executor_names(), vec!["cpu"]);
}

#[test]
fn rejects_unnamed_and_duplicate_executors() {
    let msg = refusal(GraphConfig { executors: vec![pool("", 2)], ..config(vec![], &[], &[]) });
    assert!(msg.contains("name"), "{msg}");
    let msg = refusal(GraphConfig {
        executors: vec![pool("a", 1), pool("a", 1)],
        ..config(vec![], &[], &[])
    });
    assert!(msg.contains("重复"), "{msg}");
}

#[test]
fn all_nodes_on_pool_produce_correct_output() {
    let mut g = build(GraphConfig {
        executors: vec![pool("cpu", 4)],
        ..config(
            vec![
                on("cpu", node("n1", "PassThroughKernel", &["in"], &["m1"])),
                on("cpu", node("n2", "PassThroughKernel", &["m1"], &["m2"])),
                on("cpu", node("n3", "PassThroughKernel", &["m2"], &["out"])),
            ],
            &["in"],
            &["out"],
        )
    })
    .unwrap();
    let poller = g.graph.add_poller("out").unwrap();
    g.start().unwrap();
    let input = g.input("in");
    for i in 0..200u64 {
        g.send(input, packet(i)).unwrap();
    }
    g.graph.close_all_inputs();
    g.wait_done().unwrap();
    assert_eq!(g.drain(poller), (0..200u64).collect::<Vec<_>>());
}

#[test]
fn mixed_executors_do_not_deadlock() {
    let mut g = build(GraphConfig {
        executors: vec![pool("cpu", 3)],
        ..config(
            vec![
                on("cpu", node("a", "PassThroughKernel", &["in"], &["m1"])),
                node("b", "PassThroughKernel", &["m1"], &["m2"]),
                on("cpu", node("c", "PassThroughKernel", &["m2"], &["out"])),
            ],
            &["in"],
            &["out"],
        )
    })
    .unwrap();
    let poller = g.graph.add_poller("out").unwrap();
    g.start().unwrap();
    let input = g.input("in");
    for i in 0..50u64 {
        g.send(input, packet(i)).unwrap();
        assert_eq!(g.next(poller).expect("应有输出").payload, Some(i));
    }
    g.graph.close_all_inputs();
    g.wait_done().unwrap();
}

#[test]
fn concurrent_fanout_branches() {
    let mut g = build(GraphConfig { executors: vec![pool("cpu", 4)], ..fan_out("cpu") }).unwrap();
    let pa = g.graph.add_poller("oa").unwrap();
    let pb = g.graph.add_poller("ob").unwrap();
    g.start().unwrap();
    let input = g.input("in");
    for i in 0..100u64 {
        g.send(input, packet(i)).unwrap();
    }
    g.graph.close_all_inputs();
    g.wait_done().unwrap();
    assert_eq!(g.drain(pa).len(), 100);
    assert_eq!(g.drain(pb).len(), 100);
}

fn pooled() -> Bench {
    build(GraphConfig {
        executors: vec![pool("cpu", 2)],
        ..config(
            vec![on("cpu", node("p", "PassThroughKernel", &["in"], &["out"]))],
            &["in"],
            &["out"],
        )
    })
    .unwrap()
}

#[test]
fn wait_until_idle_waits_for_pool() {
    let mut g = pooled();
    let poller = g.graph.add_poller("out").unwrap();
    g.start().unwrap();
    let input = g.input("in");
    for i in 0..100u64 {
        g.send(input, packet(i)).unwrap();
    }
    g.wait_until_idle().unwrap();
    assert!(g.graph.is_idle());
    assert_eq!(g.drain(poller).len(), 100);
    g.graph.close_all_inputs();
    g.wait_done().unwrap();
}

#[test]
fn poller_timeout_actually_times_out() {
    let mut g = pooled();
    let poller = g.graph.add_poller("out").unwrap();
    g.start().unwrap();
    assert!(g.next(poller).is_none());
}

#[test]
fn pause_and_resume() {
    let mut g = pooled();
    let poller = g.graph.add_poller("out").unwrap();
    g.start().unwrap();
    g.graph.pause();
    assert!(g.graph.is_paused());
    let input = g.input("in");
    for i in 0..10u64 {
        g.send(input, packet(i)).unwrap();
    }
    g.wait_until_idle().unwrap();
    assert!(g.graph.try_next(poller).is_none());
    assert_eq!(g.graph.queue_depth("in"), Some(10));

    g.graph.resume();
    assert!(!g.graph.is_paused());
    g.wait_until_idle().unwrap();
    assert_eq!(g.drain(poller).len(), 10);
    g.graph.close_all_inputs();
    g.wait_done().unwrap();
}

#[test]
fn close_is_called_exactly_once_under_concurrency() {
    for _round in 0..30 {
        let mut g = build(GraphConfig {
            executors: vec![pool("cpu", 4)],
            ..config(vec![on("cpu", node("s", "SinkKernel", &["in"], &[]))], &["in"], &[])
        })
        .unwrap();
        g.start().unwrap();
        let input = g.input("in");
        for i in 0..30u64 {
            g.send(input, packet(i)).unwrap();
        }
        g.graph.close_all_inputs();
        g.wait_done().unwrap();
        assert_eq!(g.graph.counter_value("sink.closed"), 1);
        assert_eq!(g.graph.counter_value("sink.packets"), 30);
    }
}

// ------------------------------------------------------------------- failures

#[test]
fn failing_kernels_stop_the_graph() {
    let mut g = build(config(vec![node("f", "FailingKernel", &["in"], &["out"])], &["in"], &["out"]))
        .unwrap();
    let poller = g.graph.add_poller("out").unwrap();
    g.start().unwrap();
    let input = g.input("in");
    g.send(input, packet(0)).unwrap();
    assert!(g.next(poller).is_none());
    let err = g.graph.try_send(input, packet(1)).unwrap_err();
    assert_eq!(err.code(), KERNEL);
    assert!(err.text().contains("broken on purpose"), "{}", err.text());
    assert_eq!(g.graph.node_stats(0, g.now).unwrap().errors, 1);
    g.graph.close_all_inputs();
    assert_eq!(g.wait_done().unwrap_err().code(), KERNEL);
}

#[test]
fn sends_that_cannot_wait_are_refused() {
    let mut g = build(GraphConfig { max_queued_packets: 1, ..simple_config() }).unwrap();
    g.start().unwrap();
    let input = g.input("in");
    g.graph.try_send(input, packet(0)).unwrap();
    assert_eq!(g.graph.try_send(input, packet(1)).unwrap_err().code(), WOULD_BLOCK);
    assert_eq!(g.graph.send(input, packet(1), None).unwrap(), SendStep::Pump);
    let err = g.graph.send(input, packet(1), Some(false)).unwrap_err();
    assert_eq!(err.code(), WOULD_BLOCK);
    g.graph.cancel();
    assert_eq!(g.graph.try_send(input, packet(2)).unwrap_err().code(), CANCELLED);
}

#[test]
fn host_objects_are_no_side_packets() {
    let mut g = simple_graph();
    let p = Packet::new(1).of_type(HOST_OBJECT, 0);
    assert_eq!(g.graph.set_side_packet("x", p, HOST_OBJECT).unwrap_err().code(), INVALID_ARG);
}

#[test]
fn closing_one_input_is_enough_to_drain() {
    let mut g = zipper("sync");
    g.start().unwrap();
    assert_eq!(g.graph.close_input("ghost").unwrap_err().code(), NOT_FOUND);
    g.graph.close_input("x").unwrap();
    assert_eq!(g.graph.state(), State::Running);
    g.graph.close_input("y").unwrap();
    assert_eq!(g.graph.state(), State::Draining);
    g.wait_done().unwrap();
    assert_eq!(g.graph.state(), State::Terminated);
}

#[test]
fn a_node_that_waits_in_vain_keeps_the_graph_open() {
    let mut g = zipper("sync");
    g.start().unwrap();
    let x = g.input("x");
    g.send(x, packet(0)).unwrap();
    g.graph.close_all_inputs();
    g.wait_done().unwrap();
    assert_eq!(g.graph.state(), State::Draining);
    assert!(!g.graph.all_nodes_closed());

    let mut eager = zipper("immediate");
    eager.start().unwrap();
    let x = eager.input("x");
    eager.send(x, packet(0)).unwrap();
    eager.graph.close_all_inputs();
    eager.wait_done().unwrap();
    assert_eq!(eager.graph.state(), State::Terminated);
}

#[test]
fn what_waited_through_a_pause_runs_after_it() {
    let mut g = simple_graph();
    let poller = g.graph.add_poller("out").unwrap();
    g.start().unwrap();
    let input = g.input("in");
    g.graph.pause();
    g.send(input, packet(4)).unwrap();
    assert!(!g.pump());
    g.graph.resume();
    g.wait_until_idle().unwrap();
    assert_eq!(g.drain(poller), vec![4]);
    g.graph.close_all_inputs();
    g.wait_done().unwrap();
    assert!(g.graph.all_nodes_closed());
}

// --------------------------------------------------------------- port types

const I64: u64 = 1;
const F64: u64 = 2;

fn type_names() -> TypeNames {
    let mut names = TypeNames::new();
    names.set(I64, "I64");
    names.set(F64, "F64");
    names
}

fn declared(input: u64, output: u64) -> KernelContract {
    KernelContract {
        input_types: vec![input],
        output_types: vec![output],
        required_side_packets: vec![],
    }
}

fn chain() -> GraphConfig {
    config(
        vec![
            node("a", "PassThroughKernel", &["in"], &["mid"]),
            node("b", "PassThroughKernel", &["mid"], &["out"]),
        ],
        &["in"],
        &["out"],
    )
}

fn build_typed(cfg: GraphConfig, contracts: Vec<KernelContract>) -> Result<Bench, Error> {
    let kernels = cfg.nodes.iter().map(|n| kernel(&n.kernel)).collect();
    let graph = Graph::from_config(cfg, &contracts, type_names(), &mut vec![])?;
    Ok(Bench { graph, kernels, now: 1 })
}

#[test]
fn different_types_at_an_edge_are_refused_before_the_run() {
    let e = match build_typed(chain(), vec![declared(0, I64), declared(F64, 0)]) {
        Ok(_) => panic!("the graph was built"),
        Err(e) => e,
    };
    assert_eq!(e.code(), INVALID_ARG);
    let text = e.text();
    assert!(text.contains("`mid` 类型不符:生产者声明 I64, 节点 `b` 声明 F64"), "{text}");
    assert!(build_typed(chain(), vec![declared(0, I64), declared(I64, 0)]).is_ok());
    assert!(build_typed(chain(), vec![declared(0, I64), declared(0, F64)]).is_ok());
    assert!(build_typed(chain(), vec![declared(F64, 0), declared(I64, 0)]).is_ok());
}

#[test]
fn emitted_packets_must_keep_the_contract() {
    let mut g = build_typed(chain(), vec![declared(0, F64), declared(0, 0)]).unwrap();
    let poller = g.graph.add_poller("out").unwrap();
    g.start().unwrap();
    let input = g.input("in");
    g.send(input, packet(1).of_type(F64, 8)).unwrap();
    assert_eq!(g.next(poller).unwrap().payload, Some(1));
    g.send(input, packet(2).of_type(I64, 8)).unwrap();
    g.graph.close_all_inputs();
    let text = g.wait_done().unwrap_err().text();
    assert!(text.contains("[a] 输出口 `mid` 类型不符:契约声明 F64, 实际 I64"), "{text}");
    assert!(g.drain(poller).is_empty());
    assert_eq!((g.graph.nodes[0].stats.processed, g.graph.nodes[0].stats.errors), (1, 1));
}

#[test]
fn packets_without_a_payload_keep_every_contract() {
    let mut g = build_typed(chain(), vec![declared(I64, I64), declared(I64, F64)]).unwrap();
    g.start().unwrap();
    let input = g.input("in");
    g.send(input, Packet::empty().at(Timestamp(1))).unwrap();
    g.graph.close_all_inputs();
    g.wait_done().unwrap();
}

#[test]
fn wrong_packets_are_refused_by_the_names_of_their_types() {
    let mut g = build_typed(chain(), vec![declared(F64, 0), declared(0, 0)]).unwrap();
    g.start().unwrap();
    let input = g.input("in");
    g.send(input, packet(1).of_type(I64, 8)).unwrap();
    g.graph.close_all_inputs();
    let text = g.wait_done().unwrap_err().text();
    assert!(text.contains("[a] 输入口 `in` 类型不符:契约声明 F64, 实际 I64"), "{text}");
}

#[test]
fn groups_must_divide_the_ports_before_the_run() {
    let grouped = |sets: Vec<Vec<String>>| {
        let mut zip = node("z", "ZipKernel", &["a", "b"], &["out"]);
        zip.input_policy = InputPolicyConfig { kind: "sync_set".to_string(), capacity: 0, sets };
        config(vec![zip], &["a", "b"], &["out"])
    };
    assert!(build(grouped(vec![names(&["a"]), names(&["b"])])).is_ok());
    assert!(refusal(grouped(vec![names(&["a"])])).contains("`b` is not assigned to a group"));
    let twice = refusal(grouped(vec![names(&["a", "b"]), names(&["b"])]));
    assert!(twice.contains("`b` appears in multiple groups"), "{twice}");
    assert!(refusal(grouped(vec![names(&["c"])])).contains("unknown input port `c`"));
}
