//! Graphs behind handles, as programs in other languages see them.

use lmflow::answers::{
    flow_graph_add_packet, flow_graph_close_all_inputs, flow_graph_counter_count,
    flow_graph_counter_name, flow_graph_counter_value, flow_graph_dump,
    flow_graph_input_port_name, flow_graph_node_name, flow_graph_node_stats,
    flow_graph_num_input_ports, flow_graph_num_nodes, flow_graph_num_output_ports,
    flow_graph_output_port_name, flow_graph_pause, flow_graph_resume, flow_graph_start,
    flow_graph_total_queued, flow_graph_total_queued_bytes, flow_graph_wait_done,
    flow_graph_wait_until_idle, flow_input_close, flow_input_send, flow_poller_next,
    flow_poller_next_timeout, flow_poller_try_next,
};
use lmflow::api::{PollStep, Poller};
use lmflow::boundary::{
    check_kernel, check_owned, dot_view, flow_abi_version, guard_failed, kernel_language,
    packet_debug_string, poller_overflow, to_status, DotView, KernelLanguage, PollerOverflow,
    ABI_VERSION, INVALID_ID,
};
use lmflow::calls::{flow_ctx_input_timestamp, flow_ctx_num_inputs};
use lmflow::config::{GraphConfig, NodeConfig};
use lmflow::crossing::{flow_packet_as_i64, flow_packet_drop, own_packet, Release};
use lmflow::graph::Graph;
use lmflow::handles::{
    check_init, check_init_file, check_stats_size, finish_init, flow_graph_add_poller_ex,
    flow_graph_cancel, flow_graph_close_input, flow_graph_dropped_count, flow_graph_input,
    flow_graph_last_error, flow_graph_new, flow_graph_observe_ex, flow_graph_queue_depth,
    flow_graph_set_side_packet, flow_graph_state, flow_input_try_send,
    flow_poller_try_next_status, GraphSlot,
};
use lmflow::lifecycle::KernelContract;
use lmflow::packet::{Packet, TypeNames};
use lmflow::run_state::{Action, KernelPhase};
use lmflow::runtime::LastError;
use lmflow::status::{
    Error, CANCELLED, CLOSED, INVALID_ARG, NOT_FOUND, OK, PANIC, STATE, UNSUPPORTED, WOULD_BLOCK,
};
use lmflow::timestamp::Timestamp;

fn names(list: &[&str]) -> Vec<String> {
    list.iter().map(|s| s.to_string()).collect()
}

fn pass(name: &str, input: &str, output: &str) -> NodeConfig {
    NodeConfig {
        name: name.to_string(),
        kernel: "PassThroughKernel".to_string(),
        input_ports: names(&[input]),
        output_ports: names(&[output]),
        ..NodeConfig::default()
    }
}

fn config() -> GraphConfig {
    GraphConfig {
        nodes: vec![pass("n1", "in", "mid"), pass("n2", "mid", "out")],
        input_ports: names(&["in"]),
        output_ports: names(&["out"]),
        ..GraphConfig::default()
    }
}

fn typed(wanted: u64) -> KernelContract {
    KernelContract { input_types: vec![wanted], output_types: vec![0], required_side_packets: vec![] }
}

fn build(cfg: GraphConfig, wanted: u64) -> Result<Graph, Error> {
    cfg.check_host_supported()?;
    let contracts = cfg.nodes.iter().map(|_| typed(wanted)).collect();
    Graph::from_config(cfg, &contracts, TypeNames::new(), &mut Vec::new())
}

fn ready(last: &mut LastError) -> GraphSlot {
    let mut slot = flow_graph_new(last);
    assert_eq!(check_init(last, Some(&slot), Some("nodes: ...")), OK);
    assert_eq!(finish_init(last, &mut slot, build(config(), 0)), OK);
    slot
}

/// Opens the nodes one after the other.
fn start(last: &mut LastError, slot: &mut GraphSlot) {
    let (code, first) = flow_graph_start(last, Some(slot), 1);
    assert_eq!(code, OK);
    let graph = slot.graph.as_mut().unwrap();
    let mut next = first;
    while next.is_some() {
        next = graph.resume_start(OK, 1, 2).unwrap();
    }
}

fn pump(graph: &mut Graph) -> bool {
    let mut action = graph.pump_step(3);
    loop {
        match action {
            Action::Done(did) => return did,
            Action::Call(n, phase) => {
                if phase == KernelPhase::Process {
                    graph.forward(n, 0, 0).unwrap();
                }
                action = graph.resume_step(OK, 1, 4);
            }
        }
    }
}

fn next(graph: &mut Graph, p: Option<Poller>) -> Option<Packet> {
    let mut pumped = None;
    loop {
        match flow_poller_next(graph, p, pumped) {
            PollStep::Got(packet) => return Some(packet),
            PollStep::End => return None,
            PollStep::Pump => pumped = Some(pump(graph)),
        }
    }
}

fn wait_done(graph: &mut Graph) -> Result<(), Error> {
    let mut pumped = None;
    while graph.wait_done(pumped) {
        pumped = Some(pump(graph));
    }
    graph.finish_wait()
}

#[test]
fn abi_version_and_handshake() {
    assert_eq!(flow_abi_version(), 1);
    assert_eq!(ABI_VERSION, 1);
}

#[test]
fn full_pipeline_through_c_abi() {
    let mut last = LastError::new();
    let mut g = ready(&mut last);
    let poller = flow_graph_add_poller_ex(&mut last, Some(&mut g), Some("out"), false);
    assert!(poller.is_some());
    start(&mut last, &mut g);
    assert_eq!(flow_graph_state(Some(&g)), 2);
    let input = flow_graph_input(&mut last, Some(&g), Some("in"));
    assert!(input.is_some());
    let graph = g.graph.as_mut().unwrap();
    for i in 0..5u64 {
        let p = Packet::new(i).at(Timestamp(i as i64));
        assert_eq!(flow_input_send(&mut last, graph, input, p, None), Some(OK));
        let out = next(graph, poller).unwrap();
        assert_eq!(out.payload, Some(i));
        assert_eq!(out.timestamp(), Timestamp(i as i64));
        let mut out = own_packet(out);
        assert_eq!(flow_packet_drop(Some(&mut out)), Release::Reference(i));
        assert!(out.payload.is_none());
        assert_eq!(flow_packet_drop(Some(&mut out)), Release::Nothing);
    }
    flow_graph_close_all_inputs(&mut last, Some(&mut g));
    assert_eq!(to_status(&mut last, wait_done(g.graph.as_mut().unwrap())), OK);
    assert_eq!(flow_graph_state(Some(&g)), 4);
}

#[test]
fn make_mutable_rejects_borrowed_packet() {
    let mut last = LastError::new();
    assert_ne!(check_owned(&mut last, Some(false)), OK);
    assert!(last.take().contains("owner"));
    assert_eq!(check_owned(&mut last, Some(true)), OK);
    assert_eq!(check_owned(&mut last, None), INVALID_ARG);
}

#[test]
fn null_pointers_do_not_crash() {
    let mut last = LastError::new();
    assert_ne!(check_init(&mut last, None, None), OK);
    assert_ne!(flow_graph_start(&mut last, None, 1).0, OK);
    assert!(flow_graph_input(&mut last, None, None).is_none());
    assert!(flow_graph_add_poller_ex(&mut last, None, None, false).is_none());
    let mut g = ready(&mut last);
    assert!(next(g.graph.as_mut().unwrap(), None).is_none());
    assert_eq!(flow_graph_num_nodes(None), 0);
    assert_eq!(flow_ctx_num_inputs(None), 0);
    assert_eq!(flow_ctx_input_timestamp(None), i64::MIN);
    assert!(flow_packet_as_i64(None).is_none());
    assert_eq!(flow_packet_drop(None), Release::Nothing);
    flow_graph_cancel(&mut last, None);
    assert!(last.take().contains("初始化"));
    flow_graph_close_all_inputs(&mut last, None);
    assert_ne!(flow_graph_wait_done(&mut last, None), OK);
    assert_ne!(flow_graph_wait_until_idle(&mut last, None), OK);
    flow_graph_pause(None);
    flow_graph_resume(None);
}

#[test]
fn missing_handles_get_an_answer() {
    let mut last = LastError::new();
    assert_ne!(check_init(&mut last, None, None), OK);
    assert_ne!(check_init_file(&mut last, None, Some("g.yaml")), OK);
    assert!(flow_graph_input(&mut last, None, None).is_none());
    assert!(flow_graph_add_poller_ex(&mut last, None, None, false).is_none());
    assert_eq!(flow_graph_num_nodes(None), 0);
    assert_eq!(flow_graph_state(None), 0);
    assert_eq!(flow_graph_queue_depth(None, Some("in")), INVALID_ID);
    assert_eq!(flow_graph_dropped_count(None, Some("in")), 0);
    assert_eq!(flow_graph_last_error(None), "");
    assert_eq!(flow_graph_dump(None, 0), "(未初始化)");
    assert_eq!(flow_graph_counter_count(None), 0);
    assert_eq!(flow_graph_total_queued_bytes(None), 0);
}

#[test]
fn handles_stay_safe_after_graph_free() {
    let mut last = LastError::new();
    let mut g = ready(&mut last);
    let poller = flow_graph_add_poller_ex(&mut last, Some(&mut g), Some("out"), false);
    start(&mut last, &mut g);
    let input = flow_graph_input(&mut last, Some(&g), Some("in"));
    assert!(input.is_some() && poller.is_some());
    flow_graph_cancel(&mut last, Some(&mut g));
    let graph = g.graph.as_mut().unwrap();
    assert_eq!(to_status(&mut last, wait_done(graph)), CANCELLED);
    let p = Packet::new(1).at(Timestamp(0));
    assert_ne!(flow_input_try_send(&mut last, graph, input, p), OK);
    assert!(next(graph, poller).is_none());
}

#[test]
fn errors_are_reported_with_readable_text() {
    let mut last = LastError::new();
    let mut g = flow_graph_new(&mut last);
    assert_ne!(flow_graph_start(&mut last, Some(&mut g), 1).0, OK);
    assert!(last.take().contains("初始化"));
    let bad = Err(Error::InvalidArg("YAML parse failed: unknown field `typo`".to_string()));
    assert_ne!(finish_init(&mut last, &mut g, bad), OK);
    assert!(!last.take().is_empty());
    assert!(g.graph.is_none());
}

#[test]
fn unsupported_config_is_rejected_not_ignored() {
    let mut last = LastError::new();
    let mut g = flow_graph_new(&mut last);
    let cfg = GraphConfig {
        nodes: vec![NodeConfig {
            kernel: "PassThroughKernel".to_string(),
            kind: "SomeSubgraph".to_string(),
            ..NodeConfig::default()
        }],
        ..GraphConfig::default()
    };
    assert_eq!(finish_init(&mut last, &mut g, build(cfg, 0)), 10);
    assert_eq!(UNSUPPORTED, 10);
    assert!(last.take().contains("子图"));
}

#[test]
fn introspection_through_c_abi() {
    let mut last = LastError::new();
    let g = ready(&mut last);
    let g = Some(&g);
    assert_eq!(flow_graph_num_nodes(g), 2);
    assert_eq!(flow_graph_num_input_ports(g), 1);
    assert_eq!(flow_graph_num_output_ports(g), 1);
    assert_eq!(flow_graph_node_name(g, 0), "n1");
    assert_eq!(flow_graph_input_port_name(g, 0), "in");
    assert_eq!(flow_graph_output_port_name(g, 0), "out");
    assert_eq!(flow_graph_node_name(g, 99), "");
    let dump = flow_graph_dump(g, 0);
    assert!(dump.contains("n1") && dump.contains("n2"), "{dump}");
    assert!(flow_graph_node_stats(&mut last, g, 0, 4, 80, 0).is_none());
    assert!(last.take().contains("struct_size"));
    let st = flow_graph_node_stats(&mut last, g, 0, 80, 80, 0).unwrap();
    assert_eq!(st.kernel_name, "PassThroughKernel");
    assert!(!check_stats_size(&mut last, 4, 80));
}

#[test]
fn observer_receives_packets() {
    let mut last = LastError::new();
    let mut g = ready(&mut last);
    assert_eq!(flow_graph_observe_ex(&mut last, Some(&mut g), Some("out"), false, Some(5)), OK);
    start(&mut last, &mut g);
    let mut seen = Vec::new();
    for i in 0..3u64 {
        let p = Packet::new(i * 10).at(Timestamp(i as i64));
        assert_eq!(flow_graph_add_packet(&mut last, Some(&mut g), Some("in"), p, None), Some(OK));
        let graph = g.graph.as_mut().unwrap();
        while pump(graph) {}
        seen.extend(graph.take_notices().iter().map(|n| n.packet.payload.unwrap()));
        assert_eq!(flow_graph_wait_until_idle(&mut last, Some(&g)), OK);
    }
    flow_graph_close_all_inputs(&mut last, Some(&mut g));
    let graph = g.graph.as_mut().unwrap();
    assert_eq!(to_status(&mut last, wait_done(graph)), OK);
    seen.extend(graph.take_notices().iter().map(|n| n.packet.payload.unwrap()));
    assert_eq!(seen, vec![0, 10, 20]);
}

#[test]
fn log_callback_receives_engine_messages() {
    let mut last = LastError::new();
    let mut g = flow_graph_new(&mut last);
    assert_eq!(finish_init(&mut last, &mut g, build(config(), 3)), OK);
    start(&mut last, &mut g);
    let bad = Packet::new(1).of_type(999, 0).at(Timestamp(0));
    let _ = flow_graph_add_packet(&mut last, Some(&mut g), Some("in"), bad, None);
    let graph = g.graph.as_mut().unwrap();
    while pump(graph) {}
    assert!(!graph.shared.take_log().is_empty());
    let ge = flow_graph_last_error(Some(&g));
    assert!(ge.contains("类型不符"), "{ge}");
}

#[test]
fn refusals_come_with_codes() {
    let mut last = LastError::new();
    let mut g = ready(&mut last);
    assert_eq!(check_init(&mut last, Some(&g), Some("again")), STATE);
    assert_eq!(check_init_file(&mut last, Some(&g), None), INVALID_ARG);
    assert_eq!(check_init_file(&mut last, Some(&g), Some("g.yaml")), OK);
    assert!(flow_graph_input(&mut last, Some(&g), Some("ghost")).is_none());
    assert!(last.take().contains("图输入口 `ghost` 不存在"));
    assert!(flow_graph_add_poller_ex(&mut last, Some(&mut g), Some("out"), true).is_none());
    assert_eq!(flow_graph_close_input(&mut last, Some(&mut g), Some("ghost")), NOT_FOUND);
    assert_eq!(flow_graph_close_input(&mut last, Some(&mut g), None), INVALID_ARG);
    let p = Packet::new(1);
    assert_eq!(flow_graph_set_side_packet(&mut last, Some(&mut g), None, p, 99), INVALID_ARG);
    assert_eq!(flow_graph_set_side_packet(&mut last, Some(&mut g), Some("c"), p, 99), OK);
    assert_eq!(flow_graph_add_packet(&mut last, Some(&mut g), None, p, None), Some(INVALID_ARG));
    assert_eq!(flow_graph_add_packet(&mut last, Some(&mut g), Some("x"), p, None), Some(NOT_FOUND));
    assert_eq!(flow_graph_observe_ex(&mut last, Some(&mut g), Some("x"), false, Some(1)), NOT_FOUND);
    assert_ne!(flow_graph_observe_ex(&mut last, Some(&mut g), Some("out"), false, None), OK);
    assert_eq!(flow_graph_add_packet(&mut last, Some(&mut g), Some("in"), p, None), Some(STATE));
    start(&mut last, &mut g);
    assert_eq!(flow_graph_start(&mut last, Some(&mut g), 9).0, STATE);
    assert_eq!(flow_graph_set_side_packet(&mut last, Some(&mut g), Some("c"), p, 99), STATE);
    assert_eq!(flow_graph_add_packet(&mut last, Some(&mut g), Some("in"), p, None), Some(INVALID_ARG));
    let graph = g.graph.as_mut().unwrap();
    assert_eq!(flow_input_send(&mut last, graph, None, p, None), Some(INVALID_ARG));
    assert_eq!(flow_input_try_send(&mut last, graph, None, p), INVALID_ARG);
}

#[test]
fn pollers_say_whether_more_may_come() {
    let mut last = LastError::new();
    let mut g = ready(&mut last);
    let poller = flow_graph_add_poller_ex(&mut last, Some(&mut g), Some("out"), false);
    start(&mut last, &mut g);
    let input = flow_graph_input(&mut last, Some(&g), Some("in"));
    let graph = g.graph.as_mut().unwrap();
    assert_eq!(flow_poller_try_next_status(&mut last, graph, poller).0, WOULD_BLOCK);
    assert_eq!(flow_poller_try_next_status(&mut last, graph, None).0, INVALID_ARG);
    let p = Packet::new(4).at(Timestamp(1)).of_type(0, 16);
    assert_eq!(flow_input_try_send(&mut last, graph, input, p), OK);
    assert_eq!(flow_graph_total_queued(Some(&g)), 1);
    assert_eq!(flow_graph_total_queued_bytes(Some(&g)), 16);
    assert_eq!(flow_graph_queue_depth(Some(&g), Some("in")), 1);
    let graph = g.graph.as_mut().unwrap();
    while pump(graph) {}
    let (code, packet) = flow_poller_try_next_status(&mut last, graph, poller);
    assert_eq!((code, packet.unwrap().payload), (OK, Some(4)));
    flow_input_close(graph, input);
    while pump(graph) {}
    assert_eq!(flow_poller_try_next_status(&mut last, graph, poller).0, CLOSED);
}

#[test]
fn counters_are_listed_in_order() {
    let mut last = LastError::new();
    let mut g = ready(&mut last);
    let shared = &mut g.graph.as_mut().unwrap().shared;
    shared.counter_add("b", 2);
    shared.counter_add("a", 1);
    let g = Some(&g);
    assert_eq!(flow_graph_counter_count(g), 2);
    assert_eq!(flow_graph_counter_name(g, 0), "a");
    assert_eq!(flow_graph_counter_name(g, 1), "b");
    assert_eq!(flow_graph_counter_name(g, 2), "");
    assert_eq!(flow_graph_counter_value(g, Some("b")), 2);
    assert_eq!(flow_graph_counter_value(g, None), 0);
}

#[test]
fn numbers_stand_for_names() {
    let mut last = LastError::new();
    assert_eq!(poller_overflow(1), Some(PollerOverflow::DropOldest));
    assert_eq!(poller_overflow(4), None);
    assert_eq!(dot_view(&mut last, 2), Some(DotView::Diagnostics));
    assert_eq!(dot_view(&mut last, 3), None);
    assert!(last.take().contains("invalid DOT view 3"));
    assert!(matches!(kernel_language(3), Ok(KernelLanguage::Python)));
    assert!(kernel_language(5).is_err());
    assert_eq!(check_kernel(&mut last, None, true), INVALID_ARG);
    assert_eq!(check_kernel(&mut last, Some("K"), false), INVALID_ARG);
    assert!(last.take().contains("算子 `K` 的 vtable 为空"));
    assert_eq!(check_kernel(&mut last, Some("K"), true), OK);
    assert_eq!(guard_failed(&mut last), PANIC);
    assert_eq!(packet_debug_string(None), "Packet{null}");
    let shown = packet_debug_string(Some((true, 7, Timestamp(5))));
    assert_eq!(shown, "Packet{type=type#7, ts=5}");
}

#[test]
fn waiting_and_pausing_need_a_graph() {
    let mut last = LastError::new();
    let mut none = flow_graph_new(&mut last);
    assert_ne!(flow_graph_wait_done(&mut last, Some(&mut none)), OK);
    assert_ne!(flow_graph_wait_until_idle(&mut last, Some(&none)), OK);
    flow_graph_pause(Some(&mut none));
    flow_graph_resume(Some(&mut none));
    assert!(none.graph.is_none());

    let mut g = ready(&mut last);
    let poller = flow_graph_add_poller_ex(&mut last, Some(&mut g), Some("out"), false);
    start(&mut last, &mut g);
    flow_graph_pause(Some(&mut g));
    assert!(g.graph.as_ref().unwrap().is_paused());
    flow_graph_resume(Some(&mut g));
    assert!(!g.graph.as_ref().unwrap().is_paused());
    assert_eq!(flow_graph_wait_until_idle(&mut last, Some(&g)), OK);
    let graph = g.graph.as_mut().unwrap();
    assert!(flow_poller_try_next(graph, poller).is_none());
    assert!(flow_poller_try_next(graph, None).is_none());
    assert_eq!(flow_poller_next_timeout(None), (CLOSED, None));
    let p = Packet::new(1).at(Timestamp(0));
    assert_eq!(flow_poller_next_timeout(Some(p)), (OK, Some(p)));
    graph.close_all_inputs();
    let _ = wait_done(graph);
    assert_eq!(flow_graph_wait_done(&mut last, Some(&mut g)), OK);
    assert_eq!(flow_graph_state(Some(&g)), 4);
}
