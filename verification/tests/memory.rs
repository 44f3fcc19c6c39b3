//! Who holds a payload: each is released once, and written to in place when
//! nobody else has it.

use lmflow::api::{Input, PollStep, Poller, SendStep};
use lmflow::config::{ExecutorConfig, GraphConfig, NodeConfig};
use lmflow::graph::Graph;
use lmflow::lifecycle::KernelContract;
use lmflow::packet::{Packet, TypeNames};
use lmflow::run_state::{Action, KernelPhase};
use lmflow::status::{Error, OK};
use lmflow::timestamp::Timestamp;
use std::collections::BTreeMap;

/// The type that the scaling kernel wants.
const NUMBER: u64 = 3;

/// A host that keeps the payloads of its packets and releases those that
/// neither it nor its graph holds.
struct Host {
    graph: Option<Graph>,
    kernels: Vec<String>,
    payloads: BTreeMap<u64, Vec<u8>>,
    in_hand: Vec<u64>,
    made: u64,
    released: u64,
    now: u64,
}

fn names(list: &[&str]) -> Vec<String> {
    list.iter().map(|s| s.to_string()).collect()
}

fn node(name: &str, kernel: &str, inputs: &[&str], outputs: &[&str]) -> NodeConfig {
    NodeConfig {
        name: name.to_string(),
        kernel: kernel.to_string(),
        input_ports: names(inputs),
        output_ports: names(outputs),
        ..NodeConfig::default()
    }
}

fn host(config: GraphConfig) -> Host {
    if let Err(e) = config.check_host_supported() {
        panic!("{}", e.text());
    }
    let kernels = config.nodes.iter().map(|n| n.kernel.clone()).collect();
    let contracts = config
        .nodes
        .iter()
        .map(|n| KernelContract {
            input_types: vec![if n.kernel == "ScaleKernel" { NUMBER } else { 0 }; n.input_ports.len()],
            output_types: vec![],
            required_side_packets: vec![],
        })
        .collect();
    match Graph::from_config(config, &contracts, TypeNames::new(), &mut vec![]) {
        Ok(graph) => Host {
            graph: Some(graph),
            kernels,
            payloads: BTreeMap::new(),
            in_hand: vec![],
            made: 0,
            released: 0,
            now: 1,
        },
        Err(e) => panic!("{}", e.text()),
    }
}

fn graph_of(nodes: Vec<NodeConfig>, inputs: &[&str], outputs: &[&str]) -> GraphConfig {
    GraphConfig {
        nodes,
        input_ports: names(inputs),
        output_ports: names(outputs),
        ..GraphConfig::default()
    }
}

fn linear_graph(kernel: &str) -> Host {
    host(graph_of(
        vec![node("a", kernel, &["in"], &["mid"]), node("b", kernel, &["mid"], &["out"])],
        &["in"],
        &["out"],
    ))
}

fn pool_graph(kernel: &str, in_flight: usize) -> Host {
    let a = NodeConfig {
        executor: "cpu".to_string(),
        max_in_flight: in_flight,
        ..node("a", kernel, &["in"], &["out"])
    };
    host(GraphConfig {
        executors: vec![ExecutorConfig {
            name: "cpu".to_string(),
            kind: "ThreadPoolExecutor".to_string(),
            num_threads: 4,
            affinity: vec![],
            priority: 0,
        }],
        ..graph_of(vec![a], &["in"], &["out"])
    })
}

impl Host {
    fn graph(&mut self) -> &mut Graph {
        self.graph.as_mut().unwrap()
    }

    /// How many payloads have not been released.
    fn alive(&self) -> usize {
        self.payloads.len()
    }

    /// A packet with a payload of its own.
    fn tracked_packet(&mut self, content: Vec<u8>, stamp: i64) -> Packet {
        self.made += 1;
        self.payloads.insert(self.made, content);
        Packet::new(self.made).at(Timestamp(stamp))
    }

    /// Releases what nobody holds.
    fn release(&mut self) {
        let numbers: Vec<u64> = self.payloads.keys().copied().collect();
        for x in numbers {
            let held = match &self.graph {
                Some(g) => g.holds(x),
                None => false,
            };
            if !held && !self.in_hand.contains(&x) {
                assert!(self.payloads.remove(&x).is_some());
                self.released += 1;
            }
        }
        assert_eq!(self.released + self.payloads.len() as u64, self.made);
    }

    fn call(&mut self, n: usize, phase: KernelPhase) -> (i32, i64) {
        self.now += 10;
        if phase != KernelPhase::Process {
            return (OK, 1);
        }
        let kernel = self.kernels[n].clone();
        if kernel == "InvertKernel" {
            let p = self.graph().nodes[n].ctx.take_input(0);
            let mut x = p.payload.unwrap();
            if self.graph().holds(x) {
                let copy = self.payloads[&x].clone();
                x = self.tracked_packet(copy, 0).payload.unwrap();
            }
            for byte in self.payloads.get_mut(&x).unwrap() {
                *byte = !*byte;
            }
            self.graph().nodes[n].ctx.emit(0, Packet { payload: Some(x), ..p }).unwrap();
        } else {
            let ctx = &mut self.graph().nodes[n].ctx;
            for out in 0..ctx.out_ports().len() {
                ctx.forward(0, out).unwrap();
            }
        }
        (OK, 1)
    }

    fn run(&mut self, first: Action) -> bool {
        let mut action = first;
        loop {
            match action {
                Action::Done(did) => {
                    self.release();
                    return did;
                }
                Action::Call(n, phase) => {
                    let (rc, us) = self.call(n, phase);
                    let now = self.now;
                    action = self.graph().resume_step(rc, us, now);
                }
            }
        }
    }

    fn pump(&mut self) -> bool {
        let now = self.now;
        let first = self.graph().pump_step(now);
        self.run(first)
    }

    fn start(&mut self) {
        let now = self.now;
        let mut next = self.graph().start(now).unwrap();
        while let Some(n) = next {
            let (rc, us) = self.call(n, KernelPhase::Open);
            let now = self.now;
            next = self.graph().resume_start(rc, us, now).unwrap();
        }
    }

    fn input(&mut self) -> Input {
        self.graph().input("in").unwrap()
    }

    /// Sends a packet; one that is refused is released at once.
    fn send(&mut self, input: Input, p: Packet) -> Result<(), Error> {
        let mut pumped = None;
        loop {
            match self.graph().send(input, p, pumped) {
                Ok(SendStep::Sent) => return Ok(()),
                Ok(SendStep::Pump) => {
                    self.in_hand = vec![p.payload.unwrap()];
                    pumped = Some(self.pump());
                    self.in_hand.clear();
                }
                Err(e) => {
                    self.release();
                    return Err(e);
                }
            }
        }
    }

    fn next(&mut self, poller: Poller) -> Option<Packet> {
        let mut pumped = None;
        loop {
            match self.graph().next_packet(poller, pumped) {
                PollStep::Got(p) => return Some(p),
                PollStep::End => return None,
                PollStep::Pump => pumped = Some(self.pump()),
            }
        }
    }

    fn wait_done(&mut self) -> Result<(), Error> {
        let mut pumped = None;
        while self.graph().wait_done(pumped) {
            pumped = Some(self.pump());
        }
        loop {
            let now = self.now;
            let first = self.graph().try_advance_closing(now);
            if !self.run(first) {
                return self.graph().finish_wait();
            }
        }
    }

    /// Throws the graph away.
    fn drop_graph(&mut self) {
        self.graph = None;
        self.release();
    }
}

#[test]
fn foreign_payloads_are_released_exactly_once() {
    let mut h = linear_graph("PassThroughKernel");
    let poller = h.graph().add_poller("out").unwrap();
    h.start();
    let input = h.input();
    for i in 0..20i64 {
        let p = h.tracked_packet(vec![i as u8], i);
        h.send(input, p).unwrap();
        assert_eq!(h.next(poller).expect("应有输出").payload, p.payload);
        h.release();
    }
    assert_eq!(h.alive(), 0, "取走并释放后不应有残留");
    h.graph().close_all_inputs();
    h.wait_done().unwrap();
    h.drop_graph();
    assert_eq!(h.alive(), 0, "图销毁后必须全部归还");
    assert_eq!(h.released, 20);
}

#[test]
fn packets_left_in_queues_are_released_on_graph_drop() {
    let mut h = linear_graph("PassThroughKernel");
    h.start();
    let input = h.input();
    for i in 0..10i64 {
        let p = h.tracked_packet(vec![], i);
        h.send(input, p).unwrap();
    }
    h.release();
    assert!(h.alive() > 0, "此刻应有在途包(否则本测试没测到东西)");
    h.drop_graph();
    assert_eq!(h.alive(), 0, "未排空就销毁图,在途包也必须释放");
}

#[test]
fn packets_are_released_when_kernel_fails() {
    let mut h =
        host(graph_of(vec![node("s", "ScaleKernel", &["in"], &["out"])], &["in"], &["out"]));
    h.start();
    let input = h.input();
    let p = h.tracked_packet(vec![1], 0);
    h.send(input, p).unwrap();
    h.graph().close_all_inputs();
    assert!(h.wait_done().is_err(), "类型不符应报错");
    assert_eq!(h.alive(), 0, "失败路径同样不得泄漏");
    h.drop_graph();
    assert_eq!(h.alive(), 0);
}

#[test]
fn cancel_path_releases_everything() {
    let mut h = linear_graph("PassThroughKernel");
    h.start();
    let input = h.input();
    for i in 0..5i64 {
        let p = h.tracked_packet(vec![], i);
        h.send(input, p).unwrap();
    }
    h.graph().cancel();
    let _ = h.wait_done();
    h.drop_graph();
    assert_eq!(h.alive(), 0, "取消后也必须全部归还");
    assert_eq!(h.released, 5);
}

#[test]
fn rejected_send_releases_the_packet() {
    let mut h = linear_graph("PassThroughKernel");
    h.start();
    let input = h.input();
    let first = h.tracked_packet(vec![], 5);
    h.send(input, first).unwrap();
    h.release();
    let after_accept = h.alive();
    assert!(after_accept > 0, "第一个包应在途");
    let second = h.tracked_packet(vec![], 3);
    assert!(h.send(input, second).is_err(), "时间戳回退必被拒");
    assert_eq!(h.alive(), after_accept, "被拒的包必须立刻释放,不能叠加到在途计数上");
    h.graph().close_input("in").unwrap();
    let third = h.tracked_packet(vec![], 6);
    assert!(h.send(input, third).is_err(), "往已关闭的口发送必被拒");
    let _ = h.wait_done();
    h.drop_graph();
    assert_eq!(h.alive(), 0, "所有包(含被拒的)最终都必须归还");
    assert_eq!(h.released, 3);
}

#[test]
fn cancel_with_pool_max_in_flight_releases_all() {
    let mut h = pool_graph("PassThroughKernel", 4);
    h.start();
    let input = h.input();
    for i in 0..64i64 {
        let p = h.tracked_packet(vec![], i);
        h.send(input, p).unwrap();
    }
    h.graph().cancel();
    let _ = h.wait_done();
    h.drop_graph();
    assert_eq!(h.alive(), 0, "并行 in-flight 下取消,所有槽的输入都必须归还");
    assert_eq!(h.released, 64);
}

#[test]
fn drop_undrained_pool_max_in_flight_releases_all() {
    let mut h = pool_graph("PassThroughKernel", 4);
    h.start();
    let input = h.input();
    for i in 0..64i64 {
        let p = h.tracked_packet(vec![], i);
        h.send(input, p).unwrap();
    }
    h.drop_graph();
    assert_eq!(h.alive(), 0, "并行 in-flight 下直接销毁图,所有槽的输入都必须归还");
}

#[test]
fn steady_state_pool_max_in_flight_no_accumulation() {
    let mut h = pool_graph("PassThroughKernel", 4);
    let poller = h.graph().add_poller("out").unwrap();
    h.start();
    let input = h.input();
    for i in 0..300i64 {
        let p = h.tracked_packet(vec![], i);
        h.send(input, p).unwrap();
    }
    h.graph().close_all_inputs();
    h.wait_done().unwrap();
    let mut n = 0;
    while h.graph().try_next(poller).is_some() {
        n += 1;
    }
    assert_eq!(n, 300, "并行下仍须无丢无重");
    assert_eq!(h.graph().shared.total_queued(), 0, "稳态下不应有残留在途包");
    h.drop_graph();
    assert_eq!(h.alive(), 0, "并行 300 帧之后不应残留任何 payload");
}

#[test]
fn side_packet_payload_released_exactly_once() {
    let mut h = linear_graph("PassThroughKernel");
    let p = h.tracked_packet(vec![42], 0);
    h.graph().set_side_packet("model", p, 99).unwrap();
    h.release();
    assert!(h.alive() > 0, "注入后 side packet 应在途");
    h.start();
    h.graph().close_all_inputs();
    h.wait_done().unwrap();
    assert_eq!(h.alive(), 1);
    h.drop_graph();
    assert_eq!(h.alive(), 0, "side packet 的 payload 必须恰好释放一次(不漏不重)");
    assert_eq!(h.released, 1);
}

#[test]
fn cow_is_zero_copy_on_linear_pipeline() {
    let mut h = host(graph_of(
        vec![
            node("p1", "PassThroughKernel", &["in"], &["m1"]),
            node("p2", "PassThroughKernel", &["m1"], &["m2"]),
            node("inv", "InvertKernel", &["m2"], &["out"]),
        ],
        &["in"],
        &["out"],
    ));
    let poller = h.graph().add_poller("out").unwrap();
    h.start();
    let input = h.input();
    let p = h.tracked_packet(vec![0; 8], 0);
    h.send(input, p).unwrap();
    let out = h.next(poller).expect("应有输出");
    assert_eq!(out.payload, p.payload, "线性管线上的就地改写不应发生任何拷贝");
    assert_eq!(h.made, 1);
    assert_eq!(h.payloads[&out.payload.unwrap()][0], 0xFF, "应已就地取反");
    h.graph().close_all_inputs();
    h.wait_done().unwrap();
}

#[test]
fn cow_copies_on_fanout_without_polluting_siblings() {
    let mut h = host(graph_of(
        vec![
            node("sp", "SplitKernel", &["in"], &["a", "b"]),
            node("inv", "InvertKernel", &["a"], &["oa"]),
            node("pas", "PassThroughKernel", &["b"], &["ob"]),
        ],
        &["in"],
        &["oa", "ob"],
    ));
    let pa = h.graph().add_poller("oa").unwrap();
    let pb = h.graph().add_poller("ob").unwrap();
    h.start();
    let input = h.input();
    let p = h.tracked_packet(vec![0; 8], 0);
    h.send(input, p).unwrap();
    h.graph().close_all_inputs();
    h.wait_done().unwrap();
    let inverted = h.graph().try_next(pa).expect("分支 a");
    let untouched = h.graph().try_next(pb).expect("分支 b");
    assert_ne!(inverted.payload, p.payload, "被共享时就地改写必须先复制");
    assert_eq!(untouched.payload, p.payload, "未改写的分支应仍指向原缓冲(零拷贝)");
    assert_eq!(h.payloads[&inverted.payload.unwrap()][0], 0xFF, "a 分支应已取反");
    assert_eq!(h.payloads[&untouched.payload.unwrap()][0], 0x00, "b 分支不得被污染");
}

#[test]
fn steady_state_has_no_accumulation() {
    let mut h = linear_graph("PassThroughKernel");
    let poller = h.graph().add_poller("out").unwrap();
    h.start();
    let input = h.input();
    for i in 0..200i64 {
        let p = h.tracked_packet(vec![], i);
        h.send(input, p).unwrap();
        h.next(poller).expect("应有输出");
        h.release();
    }
    assert_eq!(h.graph().shared.total_queued(), 0, "稳态下不应有残留在途包");
    h.graph().close_all_inputs();
    h.wait_done().unwrap();
    h.drop_graph();
    assert_eq!(h.alive(), 0, "200 轮之后不应残留任何 payload");
    assert_eq!(h.released, 200);
}

#[test]
fn ownership_conserved_under_concurrency() {
    let on_pool = |n: NodeConfig| NodeConfig { executor: "cpu".to_string(), ..n };
    let mut h = host(GraphConfig {
        executors: vec![ExecutorConfig {
            name: "cpu".to_string(),
            kind: "ThreadPoolExecutor".to_string(),
            num_threads: 4,
            affinity: vec![],
            priority: 0,
        }],
        ..graph_of(
            vec![
                on_pool(node("sp", "SplitKernel", &["in"], &["a", "b"])),
                on_pool(node("pa", "PassThroughKernel", &["a"], &["oa"])),
                on_pool(node("pb", "SinkKernel", &["b"], &[])),
            ],
            &["in"],
            &["oa"],
        )
    });
    let poller = h.graph().add_poller("oa").unwrap();
    h.start();
    let input = h.input();
    for i in 0..300i64 {
        let p = h.tracked_packet(vec![], i);
        h.send(input, p).unwrap();
    }
    h.graph().close_all_inputs();
    h.wait_done().unwrap();
    while h.graph().try_next(poller).is_some() {}
    h.release();
    assert_eq!(h.alive(), 0, "并发 + 扇出下仍不得泄漏或重复释放");
    assert_eq!(h.released, 300);
}

#[test]
fn dropping_graph_with_busy_pool_is_clean() {
    for _ in 0..10 {
        let mut h = pool_graph("PassThroughKernel", 0);
        h.start();
        let input = h.input();
        for i in 0..100i64 {
            let p = h.tracked_packet(vec![], i);
            h.send(input, p).unwrap();
        }
        h.drop_graph();
        assert_eq!(h.alive(), 0, "拆图时仍须释放所有在途 payload");
        assert_eq!(h.released, 100);
    }
}
