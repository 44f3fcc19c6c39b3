//! What kernels see: their context, their options, the state they share.

use lmflow::boundary::{
    flow_contract_input_id, flow_contract_input_index, flow_contract_input_set_any,
    flow_contract_input_set_type, flow_contract_num_inputs, flow_contract_num_outputs,
    flow_contract_output_id, flow_contract_output_index, flow_contract_output_set_any,
    flow_contract_output_set_type, flow_contract_require_side_packet, flow_ctx_emit,
    flow_ctx_forward, flow_ctx_input_is_done, flow_ctx_input_is_empty,
    flow_ctx_require_option_bool, flow_ctx_require_option_i64, flow_ctx_require_option_str,
    Contract, INVALID_ID,
};
use lmflow::builtin::{register_defaults, PassThrough, Sink};
use lmflow::calls::{
    flow_contract_input_name, flow_contract_output_name, flow_ctx_close_reason,
    flow_ctx_counter_add, flow_ctx_has_option, flow_ctx_has_side_packet, flow_ctx_input,
    flow_ctx_input_id, flow_ctx_input_index, flow_ctx_input_name, flow_ctx_input_timestamp,
    flow_ctx_kernel_name, flow_ctx_log, flow_ctx_node_name, flow_ctx_num_inputs,
    flow_ctx_num_outputs, flow_ctx_option_bool, flow_ctx_option_count, flow_ctx_option_i64,
    flow_ctx_option_i64_array, flow_ctx_option_str, flow_ctx_option_str_array,
    flow_ctx_options_json, flow_ctx_output_id, flow_ctx_output_index, flow_ctx_output_name,
    flow_ctx_set_error, flow_ctx_set_next_ts_bound, flow_ctx_side_packet, flow_ctx_take_input,
    lmflow_ctx_source_done, lmflow_ctx_source_yield,
};
use lmflow::config::GraphConfig;
use lmflow::context::Context;
use lmflow::options::Options;
use lmflow::packet::{Packet, TypeNames};
use lmflow::port::PortTable;
use lmflow::runtime::{
    GraphShared, LastError, CLOSE_CANCELLED, CLOSE_ERROR, CLOSE_NORMAL, LOG_DEBUG, LOG_INFO,
    LOG_WARN,
};
use lmflow::status::{Error, INVALID_ARG, KERNEL, OK};
use lmflow::text_map::TextMap;
use lmflow::timestamp::Timestamp;

fn table(decls: &[&str]) -> PortTable {
    let owned = decls.iter().map(|s| s.to_string()).collect();
    match PortTable::build(&owned) {
        Ok(t) => t,
        Err(e) => panic!("{}", e.text()),
    }
}

fn ctx(options: &str) -> Context {
    let mut side = TextMap::new();
    side.insert("calibration".to_string(), Packet::new(77));
    Context::new(
        "n".to_string(),
        "K".to_string(),
        table(&["A:a", "B:b"]),
        table(&["x", "y"]),
        Options::new(serde_yaml::from_str(options).unwrap()),
        side,
    )
}

fn shared() -> GraphShared {
    GraphShared::new(GraphConfig::default())
}

// ------------------------------------------------------------- the shared state

#[test]
fn first_error_wins() {
    let mut s = shared();
    assert!(!s.has_error());
    s.record_error(Error::Kernel("第一个".to_string()));
    s.record_error(Error::Kernel("第二个".to_string()));
    assert!(s.has_error());
    assert!(s.first_error().unwrap().text().contains("第一个"));
}

#[test]
fn close_reason_priority() {
    let mut s = shared();
    assert_eq!(s.close_reason(), CLOSE_NORMAL);
    s.record_error(Error::Kernel("x".to_string()));
    assert_eq!(s.close_reason(), CLOSE_ERROR);
    s.cancel();
    assert_eq!(s.close_reason(), CLOSE_CANCELLED);
}

#[test]
fn watermark_counts_packets_and_bytes() {
    let mut s = GraphShared::new(GraphConfig { max_queued_packets: 2, ..GraphConfig::default() });
    assert!(!s.over_watermark());
    s.on_enqueue(10);
    assert!(!s.over_watermark());
    s.on_enqueue(10);
    assert!(s.over_watermark());
    s.on_dequeue(10);
    assert!(!s.over_watermark());
    assert_eq!(s.total_queued(), 1);
    assert_eq!(s.total_queued_bytes(), 10);
}

#[test]
fn watermark_counts_bytes_alone() {
    let mut s = GraphShared::new(GraphConfig { max_queued_bytes: 15, ..GraphConfig::default() });
    s.on_enqueue(10);
    assert!(!s.over_watermark());
    s.on_enqueue(5);
    assert!(s.over_watermark());
}

#[test]
fn dequeue_never_underflows() {
    let mut s = shared();
    s.on_dequeue(999);
    assert_eq!(s.total_queued(), 0);
    assert_eq!(s.total_queued_bytes(), 0);
}

#[test]
fn counters_accumulate() {
    let mut s = shared();
    s.counter_add("frames", 1);
    s.counter_add("frames", 2);
    assert_eq!(s.counter_value("frames"), 3);
    assert_eq!(s.counter_value("nope"), 0);
    assert_eq!(s.counter_names(), vec!["frames".to_string()]);
}

#[test]
fn texts_of_errors_stop_at_nothing() {
    let mut last = LastError::new();
    last.set("plain");
    assert_eq!(last.take(), "plain");
    last.set("a\0b");
    assert!(!last.take().contains('\0'));
}

// ---------------------------------------------------------------------- options

#[test]
fn options_scalars_and_dotted_path() {
    let c = ctx("threshold: 0.5\nn: 7\nflag: true\nname: hi\nroi:\n  x: 8\n  y: 9\n");
    assert_eq!(c.options().get("threshold").and_then(|v| v.as_f64()), Some(0.5));
    assert_eq!(c.options().i64("n"), Some(7));
    assert_eq!(c.options().bool("flag"), Some(true));
    assert_eq!(c.options().str("name"), Some("hi"));
    assert_eq!(c.options().i64("roi.x"), Some(8));
    assert_eq!(c.options().i64("roi.y"), Some(9));
    assert_eq!(c.options().i64("nope"), None);
    assert_eq!(c.options().i64("roi.nope"), None);
}

#[test]
fn integer_reads_as_float() {
    let c = ctx("scale: 2");
    assert_eq!(c.options().get("scale").and_then(|v| v.as_f64()), Some(2.0));
}

fn f64_array(c: &Context, path: &str, out: &mut [f64]) -> usize {
    match c.options().seq(path) {
        Some(list) => {
            for (slot, v) in out.iter_mut().zip(list) {
                *slot = v.as_f64().unwrap_or(0.0);
            }
            list.len()
        }
        None => 0,
    }
}

#[test]
fn options_arrays() {
    let c = ctx("mean: [0.1, 0.2, 0.3]\nsizes: [8, 16]\nnames: [a, b]");
    assert_eq!(c.options().count("mean"), 3);
    let mut f = [0.0f64; 4];
    assert_eq!(f64_array(&c, "mean", &mut f), 3);
    assert_eq!(&f[..3], &[0.1, 0.2, 0.3]);

    let mut i = vec![0i64; 2];
    assert_eq!(c.options().i64_array("sizes", &mut i), 2);
    assert_eq!(i, [8, 16]);

    let mut small = [0.0f64; 2];
    assert_eq!(f64_array(&c, "mean", &mut small), 3);
    assert_eq!(&small, &[0.1, 0.2]);

    assert_eq!(c.options().count("missing"), 0);
    assert_eq!(f64_array(&c, "missing", &mut f), 0);

    let mut texts = vec![String::new(); 3];
    assert_eq!(c.options().str_array("names", &mut texts), 2);
    assert_eq!(texts, ["a", "b", ""]);
}

#[test]
fn options_json_fallback() {
    let c = ctx("a: 1\nnested:\n  deep:\n    x: [1, 2]\n");
    let j = c.options().json();
    assert!(j.contains("\"a\":1"), "{j}");
    assert!(j.contains("deep"), "{j}");
}

#[test]
fn empty_options_json_is_object() {
    assert_eq!(ctx("~").options().json(), "{}");
}

#[test]
fn numbers_beyond_the_signed_range_are_no_integers() {
    let c = ctx("big: 18446744073709551615\nlow: -9223372036854775808\nhalf: 0.5\n");
    assert_eq!(c.options().i64("low"), Some(i64::MIN));
    assert_eq!(c.options().i64("half"), None);
    assert!(c.options().has("big"));
}

// ---------------------------------------------------------------------- contexts

#[test]
fn emit_inherits_input_timestamp() {
    let mut c = ctx("{}");
    c.set_input_ts(Timestamp(42));
    c.emit(0, Packet::new(1)).unwrap();
    assert_eq!(c.staged(0).unwrap()[0].timestamp(), Timestamp(42));
    c.emit(1, Packet::new(2).at(Timestamp(7))).unwrap();
    assert_eq!(c.staged(1).unwrap()[0].timestamp(), Timestamp(7));
}

#[test]
fn emit_out_of_range_is_error() {
    let mut c = ctx("{}");
    let err = c.emit(9, Packet::new(1)).unwrap_err();
    assert!(err.text().contains("out of range"), "{}", err.text());
}

#[test]
fn forward_clones_reference_only() {
    let mut c = ctx("{}");
    c.set_input(0, Packet::new(5));
    c.forward(0, 0).unwrap();
    assert_eq!(c.input(0).unwrap().payload, c.staged(0).unwrap()[0].payload);
    assert_eq!(c.staged(0).unwrap()[0].payload, Some(5));
}

#[test]
fn forward_from_empty_slot_is_error() {
    assert!(ctx("{}").forward(0, 0).is_err());
}

#[test]
fn take_input_empties_slot_enabling_cow() {
    let mut c = ctx("{}");
    c.set_input(0, Packet::new(5));
    let p = c.take_input(0);
    assert!(c.slot(0).is_none());
    assert_eq!(p.payload, Some(5));
    assert!(c.take_input(0).is_empty());
}

#[test]
fn discard_staging_on_failure() {
    let mut c = ctx("{}");
    c.emit(0, Packet::new(1)).unwrap();
    c.set_next_bound(1, Timestamp(3));
    c.discard_staging();
    assert!(c.staged(0).unwrap().is_empty());
    assert!(c.next_bound(1).is_none());
}

#[test]
fn error_carries_node_name() {
    let mut c = ctx("{}");
    c.set_error("model load failed");
    let e = c.take_error(3);
    assert!(e.text().contains("[n]"), "{}", e.text());
    assert!(e.text().contains("model load failed"), "{}", e.text());
    assert_eq!(e.code(), KERNEL);
}

#[test]
fn error_without_message_still_useful() {
    let e = ctx("{}").take_error(3);
    assert!(e.text().contains("status code 3"), "{}", e.text());
}

#[test]
fn batches_come_before_the_slot() {
    let mut c = ctx("{}");
    c.set_input(0, Packet::new(1));
    assert_eq!(c.input_count(0), 1);
    c.set_batch(0, vec![Packet::new(2), Packet::new(3)]);
    assert_eq!(c.input_count(0), 2);
    assert_eq!(c.input_at(0, 1).unwrap().payload, Some(3));
    assert!(c.input_at(0, 2).is_none());
    c.reset();
    assert_eq!(c.input_count(0), 0);
}

// ------------------------------------------------------ kernels of other languages

#[test]
fn kernels_find_their_ports() {
    let c = ctx("{}");
    let c = Some(&c);
    assert_eq!((flow_ctx_num_inputs(c), flow_ctx_num_outputs(c)), (2, 2));
    assert_eq!(flow_ctx_input_id(c, Some("B"), 0), 1);
    assert_eq!(flow_ctx_input_id(c, Some("C"), 0), INVALID_ID);
    assert_eq!(flow_ctx_output_id(c, None, 1), 1);
    assert_eq!(flow_ctx_input_index(c, Some("b")), 1);
    assert_eq!(flow_ctx_output_index(c, Some("b")), INVALID_ID);
    assert_eq!(flow_ctx_input_name(c, 0), "a");
    assert_eq!(flow_ctx_output_name(c, 1), "y");
    assert_eq!(flow_ctx_output_name(c, 2), "");
    assert_eq!((flow_ctx_node_name(c).as_str(), flow_ctx_kernel_name(c).as_str()), ("n", "K"));
    assert_eq!(flow_ctx_close_reason(c), CLOSE_NORMAL);
    assert_eq!(flow_ctx_side_packet(c, Some("calibration")).unwrap().payload, Some(77));
    assert!(!flow_ctx_has_side_packet(c, Some("other")));
}

#[test]
fn kernels_read_their_options() {
    let c = ctx("n: 7\nflag: true\nname: hi\nsizes: [8, 16, x]\n");
    let c = Some(&c);
    assert!(flow_ctx_has_option(c, Some("n")));
    assert_eq!(flow_ctx_option_i64(c, Some("n"), 1), 7);
    assert_eq!(flow_ctx_option_i64(c, Some("name"), 1), 1);
    assert!(flow_ctx_option_bool(c, Some("flag"), false));
    assert_eq!(flow_ctx_option_str(c, Some("name"), None).as_deref(), Some("hi"));
    assert_eq!(flow_ctx_option_str(c, Some("nope"), Some("else")).as_deref(), Some("else"));
    assert_eq!(flow_ctx_option_count(c, Some("sizes")), 3);
    let mut sizes = vec![1i64; 4];
    assert_eq!(flow_ctx_option_i64_array(c, Some("sizes"), &mut sizes), 3);
    assert_eq!(sizes, [8, 16, 0, 1]);
    let mut texts = vec!["?".to_string(); 3];
    assert_eq!(flow_ctx_option_str_array(c, Some("sizes"), &mut texts), 3);
    assert_eq!(texts, ["", "", "x"]);
    assert!(flow_ctx_options_json(c).contains("\"n\":7"));
}

#[test]
fn required_options_are_demanded() {
    let c = ctx("n: 7\nflag: true\nname: hi\n");
    let mut last = LastError::new();
    assert_eq!(flow_ctx_require_option_i64(&mut last, Some(&c), Some("n")), (OK, Some(7)));
    assert_eq!(flow_ctx_require_option_bool(&mut last, Some(&c), Some("flag")), (OK, Some(true)));
    assert_eq!(
        flow_ctx_require_option_str(&mut last, Some(&c), Some("name")),
        (OK, Some("hi".to_string()))
    );
    let missing = flow_ctx_require_option_i64(&mut last, Some(&c), Some("scale"));
    assert_eq!(missing, (INVALID_ARG, None));
    assert!(last.take().contains("节点 `n`: 必需参数 options.scale 缺失或类型不符"));
    assert_eq!(flow_ctx_require_option_bool(&mut last, None, Some("flag")).0, INVALID_ARG);
    assert!(last.take().contains("上下文为空"));
    assert_eq!(flow_ctx_require_option_str(&mut last, Some(&c), None).0, INVALID_ARG);
    assert!(last.take().contains("参数名为空"));
}

#[test]
fn kernels_emit_and_forward() {
    let mut c = ctx("{}");
    let mut last = LastError::new();
    c.set_input(0, Packet::new(5));
    c.set_input_ts(Timestamp(9));
    assert_eq!(flow_ctx_input_timestamp(Some(&c)), 9);
    assert!(!flow_ctx_input_is_empty(Some(&c), 0));
    assert!(flow_ctx_input_is_empty(Some(&c), 1));
    assert!(!flow_ctx_input_is_done(Some(&c), 0));
    flow_ctx_emit(&mut last, Some(&mut c), 0, Packet::new(6));
    flow_ctx_forward(&mut last, Some(&mut c), 0, 1);
    assert_eq!(c.staged(0).unwrap()[0].payload, Some(6));
    assert_eq!(c.staged(1).unwrap()[0].payload, Some(5));
    flow_ctx_emit(&mut last, Some(&mut c), 7, Packet::new(6));
    assert!(last.take().contains("out of range"));
    assert!(c.take_error(1).text().contains("out of range"));
    flow_ctx_set_next_ts_bound(Some(&mut c), 1, 12);
    assert_eq!(c.next_bound(1), Some(Timestamp(12)));
    assert_eq!(flow_ctx_take_input(Some(&mut c), 0).payload, Some(5));
    assert!(flow_ctx_input(Some(&c), 0).is_none());
    flow_ctx_set_error(Some(&mut c), Some("said"));
    assert!(c.take_error(1).text().contains("said"));
}

#[test]
fn kernels_log_and_count() {
    let c = ctx("{}");
    let mut s = shared();
    flow_ctx_log(Some(&c), &mut s, false, LOG_WARN, Some("unheard"));
    flow_ctx_log(Some(&c), &mut s, true, LOG_WARN, Some("heard"));
    let log = s.take_log();
    assert_eq!(log.len(), 1);
    assert_eq!(log[0].text, "[n] heard");
    flow_ctx_counter_add(Some(&mut s), Some("frames"), 4);
    assert_eq!(s.counter_value("frames"), 4);
}

#[test]
fn missing_contexts_get_an_answer() {
    let mut last = LastError::new();
    assert_eq!((flow_ctx_num_inputs(None), flow_ctx_num_outputs(None)), (0, 0));
    assert_eq!(flow_ctx_input_timestamp(None), i64::MIN);
    assert_eq!(flow_ctx_input_id(None, None, 0), INVALID_ID);
    assert!(flow_ctx_input(None, 0).is_none());
    assert!(flow_ctx_input_is_empty(None, 0));
    assert!(flow_ctx_take_input(None, 0).is_empty());
    assert_eq!(flow_ctx_options_json(None), "{}");
    assert_eq!(flow_ctx_node_name(None), "");
    flow_ctx_emit(&mut last, None, 0, Packet::new(1));
    flow_ctx_set_error(None, Some("nobody"));
    assert_eq!(last.take(), "");
}

#[test]
fn contracts_are_filled_in() {
    let mut c = Contract::new(table(&["A:a", "B:b"]), table(&["x"]));
    assert_eq!(flow_contract_num_inputs(Some(&c)), 2);
    assert_eq!(flow_contract_num_outputs(Some(&c)), 1);
    assert_eq!(flow_contract_input_id(Some(&c), Some("B"), 0), 1);
    assert_eq!(flow_contract_output_id(Some(&c), Some("B"), 0), INVALID_ID);
    assert_eq!(flow_contract_input_index(Some(&c), Some("a")), 0);
    assert_eq!(flow_contract_output_index(Some(&c), Some("x")), 0);
    assert_eq!(flow_contract_input_name(Some(&c), 1), "b");
    assert_eq!(flow_contract_output_name(Some(&c), 5), "");
    flow_contract_input_set_type(Some(&mut c), 1, 6);
    flow_contract_output_set_type(Some(&mut c), 0, 7);
    flow_contract_output_set_type(Some(&mut c), 9, 8);
    flow_contract_require_side_packet(Some(&mut c), Some("calibration"));
    let kept = c.kept();
    assert_eq!(kept.input_types, vec![0, 6]);
    assert_eq!(kept.output_types.len(), 1);
    assert_eq!(kept.required_side_packets, vec!["calibration"]);
    assert_eq!(c.output_types, vec![7]);
    flow_contract_input_set_any(Some(&mut c), 1);
    flow_contract_output_set_any(Some(&mut c), 0);
    assert_eq!((c.input_types.clone(), c.output_types.clone()), (vec![0, 0], vec![0]));
}

// ------------------------------------------------------------- built-in kernels

#[test]
fn pass_through_hands_on_what_it_gets() {
    let mut c = ctx("{}");
    let mut k = PassThrough {};
    assert!(k.process(&mut c).is_err());
    c.set_input(0, Packet::new(5).at(Timestamp(3)));
    k.process(&mut c).unwrap();
    assert_eq!(c.staged(0).unwrap()[0], Packet::new(5).at(Timestamp(3)));
}

#[test]
fn sinks_count_what_they_consume() {
    let mut c = ctx("{}");
    let mut s = shared();
    let mut k = Sink::new();
    c.set_input_ts(Timestamp(11));
    k.process(&c, &mut s, true).unwrap();
    k.process(&c, &mut s, false).unwrap();
    k.close(&c, &mut s, true).unwrap();
    assert_eq!(s.counter_value("sink.packets"), 2);
    assert_eq!(s.counter_value("sink.closed"), 1);
    let log = s.take_log();
    assert_eq!(log.len(), 2);
    assert_eq!((log[0].level, log[0].text.as_str()), (LOG_DEBUG, "[n] received packet @ ts=11"));
    assert_eq!(
        (log[1].level, log[1].text.as_str()),
        (LOG_INFO, "[n] processed 2 packets in total")
    );
}

#[test]
fn kernels_of_the_host_win() {
    let mut registry = TextMap::new();
    registry.insert("Sink".to_string(), 9);
    register_defaults(&mut registry, 1, 2);
    register_defaults(&mut registry, 3, 4);
    assert_eq!(registry.get("PassThrough"), Some(&1));
    assert_eq!(registry.get("Sink"), Some(&9));
}

#[test]
fn lines_with_a_zero_are_not_logged() {
    let mut s = shared();
    s.note(LOG_WARN, "a\0b");
    s.note(LOG_WARN, "ab");
    let lines = s.take_log();
    assert_eq!(lines.len(), 1);
    assert_eq!((lines[0].level, lines[0].text.as_str()), (LOG_WARN, "ab"));
    let c = ctx("{}");
    flow_ctx_log(Some(&c), &mut s, true, LOG_INFO, Some("x\0"));
    assert_eq!(s.take_log().len(), 0);
    s.record_error(Error::Kernel("a\0b".to_string()));
    assert!(s.has_error());
    assert_eq!(s.take_log().len(), 0);
}

#[test]
fn texts_with_a_zero_go_over_the_boundary_empty() {
    let c = Context::new(
        "a\0b".to_string(),
        "K".to_string(),
        table(&["x\0y"]),
        table(&["z"]),
        Options::new(serde_yaml::from_str("name: \"a\\0b\"\nnames: [\"a\\0b\", c]\n").unwrap()),
        TextMap::new(),
    );
    assert_eq!(c.options().str("name"), Some("a\0b"));
    let c = Some(&c);
    assert_eq!(flow_ctx_node_name(c), "");
    assert_eq!(flow_ctx_kernel_name(c), "K");
    assert_eq!(flow_ctx_input_name(c, 0), "");
    assert_eq!(flow_ctx_output_name(c, 0), "z");
    assert_eq!(flow_ctx_option_str(c, Some("name"), None).as_deref(), Some(""));
    let mut texts = vec!["?".to_string(); 2];
    assert_eq!(flow_ctx_option_str_array(c, Some("names"), &mut texts), 2);
    assert_eq!(texts, ["", "c"]);
}

#[test]
fn types_without_a_name_go_by_their_number() {
    let mut names = TypeNames::new();
    assert_eq!(names.name(9), "type#9");
    names.set(9, "Image");
    names.set(2, "F64");
    assert_eq!((names.name(9).as_str(), names.name(2).as_str()), ("Image", "F64"));
    names.set(9, "Frame");
    assert_eq!(names.name(9), "Frame");
    assert_eq!(names.name(3), "type#3");
}

#[test]
fn sources_say_when_they_are_through_or_wait() {
    let mut c = ctx("{}");
    assert_eq!((c.is_source_done(), c.source_yield()), (false, None));
    lmflow_ctx_source_yield(Some(&mut c), 25);
    assert_eq!((c.is_source_done(), c.source_yield()), (false, Some(25)));
    lmflow_ctx_source_done(Some(&mut c));
    assert_eq!((c.is_source_done(), c.source_yield()), (true, Some(25)));
    c.reset();
    assert_eq!((c.is_source_done(), c.source_yield()), (false, None));
    lmflow_ctx_source_done(None);
    lmflow_ctx_source_yield(None, u64::MAX);
}
