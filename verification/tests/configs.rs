//! Configurations: what they default to, which are refused, how subgraphs are
//! expanded and what a plan says.

use lmflow::config::{
    ExecutorConfig, GraphConfig, InputPolicyConfig, InputQueueLimitConfig, MetadataPredicate,
    NodeConfig, RouteConfig, RouteMode, RouteRule, StatsLevel, SubgraphConfig,
};
use lmflow::expand::expand;
use lmflow::load::{include_failure, parse_failure, read_failure, IncludeWalk};
use lmflow::plan::GraphPlan;
use lmflow::status::{Error, INVALID_ARG};
use lmflow::summary::{
    print_summary, read_arguments, refusal_line, summarize_refusal, summary_json, usage, Form,
    EXIT_ACCEPTED, EXIT_REFUSED, EXIT_USAGE,
};
use lmflow::text_map::TextMap;

fn names(list: &[&str]) -> Vec<String> {
    list.iter().map(|s| s.to_string()).collect()
}

fn node(name: &str, kernel: &str, inputs: &[&str], outputs: &[&str]) -> NodeConfig {
    NodeConfig {
        name: name.to_string(),
        kernel: kernel.to_string(),
        input_ports: names(inputs),
        output_ports: names(outputs),
        ..NodeConfig::default()
    }
}

fn instance(name: &str, kind: &str, inputs: &[&str], outputs: &[&str]) -> NodeConfig {
    NodeConfig { kind: kind.to_string(), ..node(name, "", inputs, outputs) }
}

fn route(
    name: &str,
    inputs: &[&str],
    outputs: &[&str],
    mode: RouteMode,
    unmatched: &str,
    routes: Vec<RouteRule>,
) -> NodeConfig {
    NodeConfig {
        route: Some(RouteConfig { mode, unmatched: unmatched.to_string(), routes }),
        ..instance(name, "route", inputs, outputs)
    }
}

fn rule(to: &str, when: Option<&str>) -> RouteRule {
    let when = when.map(|form| MetadataPredicate { form: form.to_string(), problem: None });
    RouteRule { to: to.to_string(), default: when.is_none(), when }
}

fn graph(nodes: Vec<NodeConfig>, inputs: &[&str], outputs: &[&str]) -> GraphConfig {
    GraphConfig {
        nodes,
        input_ports: names(inputs),
        output_ports: names(outputs),
        ..GraphConfig::default()
    }
}

fn executor(name: &str, kind: &str, threads: usize) -> ExecutorConfig {
    ExecutorConfig {
        name: name.to_string(),
        kind: kind.to_string(),
        num_threads: threads,
        affinity: vec![],
        priority: 0,
    }
}

fn ok<T>(r: Result<T, Error>) -> T {
    match r {
        Ok(v) => v,
        Err(e) => panic!("{}", e.text()),
    }
}

fn refused<T>(r: Result<T, Error>) -> Error {
    match r {
        Ok(_) => panic!("it was accepted"),
        Err(e) => e,
    }
}

fn plan(cfg: GraphConfig) -> Result<GraphPlan, Error> {
    GraphPlan::build(GraphConfig::from_yaml(cfg)?, 4)
}

// ------------------------------------------------------------------- defaults

#[test]
fn config_parses_minimal_graph() {
    let cfg = ok(GraphConfig::from_yaml(graph(
        vec![node("n1", "PassThroughKernel", &["a"], &["b"])],
        &["a"],
        &["b"],
    )));
    assert_eq!(cfg.nodes.len(), 1);
    assert_eq!(cfg.nodes[0].kernel, "PassThroughKernel");
    assert_eq!(cfg.input_ports, vec!["a"]);
    assert_eq!(cfg.max_queue_size, 100);
    assert_eq!(cfg.effective_stats_level(), StatsLevel::Basic);
}

#[test]
fn config_parses_options_and_executors() {
    let n = NodeConfig {
        executor: "cpu".to_string(),
        options: serde_yaml::from_str("{ factor: 3, mean: [0.1, 0.2], roi: { x: 5 } }").unwrap(),
        ..node("s", "ScaleKernel", &["a"], &["b"])
    };
    let cfg = ok(GraphConfig::from_yaml(GraphConfig {
        executors: vec![executor("cpu", "ThreadPoolExecutor", 4)],
        watchdog_ms: 5000,
        max_queued_packets: 500,
        buffer_pool_max_bytes: 268435456,
        ..graph(vec![n], &[], &[])
    }));
    assert_eq!(cfg.executors[0].num_threads, 4);
    assert_eq!(cfg.nodes[0].executor, "cpu");
    assert_eq!(cfg.watchdog_ms, 5000);
    assert_eq!(cfg.max_queued_packets, 500);
    assert_eq!(cfg.buffer_pool_max_bytes, 268435456);
    assert!(cfg.nodes[0].options.get("factor").is_some());
}

#[test]
fn config_parses_executor_affinity() {
    let rt = ExecutorConfig {
        affinity: vec![2, 3],
        priority: 10,
        ..executor("rt", "ThreadPoolExecutor", 2)
    };
    let cfg = ok(GraphConfig::from_yaml(GraphConfig {
        executors: vec![rt],
        ..graph(vec![node("n", "K", &["a"], &["b"])], &[], &[])
    }));
    assert_eq!(cfg.executors[0].affinity, vec![2, 3]);
    assert_eq!(cfg.executors[0].priority, 10);
    let cfg2 = ok(GraphConfig::from_yaml(GraphConfig {
        executors: vec![executor("c", "ThreadPoolExecutor", 0)],
        ..graph(vec![], &[], &[])
    }));
    assert!(cfg2.executors[0].affinity.is_empty());
    assert_eq!(cfg2.executors[0].priority, 0);
}

#[test]
fn config_rejects_unsupported_features_loudly() {
    let err = refused(GraphConfig::from_yaml(GraphConfig {
        executors: vec![executor("nope", "FiberExecutor", 0)],
        ..graph(vec![node("n", "K", &[], &[])], &[], &[])
    }));
    assert_eq!(err.code(), INVALID_ARG);
    assert!(err.text().contains("unknown executor type"), "{}", err.text());

    let many = NodeConfig { max_in_flight: 4, ..node("n", "K", &[], &[]) };
    let err = refused(graph(vec![many], &[], &[]).check_host_supported());
    assert_eq!(err.code(), INVALID_ARG);
    assert!(err.text().contains("max_in_flight"), "{}", err.text());
}

#[test]
fn bad_policies_are_refused() {
    let odd = NodeConfig {
        input_policy: InputPolicyConfig {
            kind: "nonsense".to_string(),
            capacity: 0,
            sets: vec![],
        },
        ..node("", "K", &[], &[])
    };
    let err = refused(GraphConfig::from_yaml(graph(vec![odd], &[], &[])));
    assert_eq!(err.code(), INVALID_ARG);
}

#[test]
fn parses_stats_levels_and_legacy_timing() {
    for (stats, timing, expected) in [
        (Some(StatsLevel::Off), None, StatsLevel::Off),
        (Some(StatsLevel::Basic), None, StatsLevel::Basic),
        (Some(StatsLevel::Full), None, StatsLevel::Full),
        (None, Some(false), StatsLevel::Basic),
        (None, Some(true), StatsLevel::Full),
    ] {
        let cfg = ok(GraphConfig::from_yaml(GraphConfig {
            stats,
            stats_timing: timing,
            ..graph(vec![], &[], &[])
        }));
        assert_eq!(cfg.effective_stats_level(), expected);
    }
}

#[test]
fn rejects_new_and_legacy_stats_together() {
    let err = refused(GraphConfig::from_yaml(GraphConfig {
        stats: Some(StatsLevel::Basic),
        stats_timing: Some(false),
        ..graph(vec![], &[], &[])
    }));
    assert!(err.text().contains("cannot be used together"));
}

#[test]
fn watchdog_forces_full_stats() {
    let cfg = ok(GraphConfig::from_yaml(GraphConfig {
        stats: Some(StatsLevel::Off),
        watchdog_ms: 1,
        ..graph(vec![], &[], &[])
    }));
    assert_eq!(cfg.effective_stats_level(), StatsLevel::Full);
}

// --------------------------------------------------------------------- routes

#[test]
fn parses_and_plans_conditional_route() {
    let rules = vec![
        rule("high", Some("confidence >= 0.8")),
        rule("medium", Some("confidence >= 0.5 and not suppressed == true")),
        rule("low", None),
    ];
    let outputs = ["high", "medium", "low"];
    let n = route("confidence_route", &["detections"], &outputs, RouteMode::First, "error", rules);
    let plan = ok(plan(graph(vec![n], &["detections"], &outputs)));
    let route = plan.nodes[0].route.as_ref().unwrap();
    assert_eq!(route.mode, RouteMode::First);
    assert_eq!(route.unmatched, "error");
    assert_eq!(route.routes.len(), 3);
    assert!(route.routes[2].default);
}

#[test]
fn parses_route_all_mode_and_timestamp_condition() {
    let rules = vec![rule("recent", Some("timestamp >= 1000"))];
    let n = route("", &["input"], &["recent"], RouteMode::All, "drop", rules);
    let plan = ok(plan(graph(vec![n], &["input"], &["recent"])));
    assert_eq!(plan.nodes[0].route.as_ref().unwrap().mode, RouteMode::All);
}

fn plain_route(inputs: &[&str], routes: Vec<RouteRule>) -> NodeConfig {
    route("", inputs, &["out"], RouteMode::First, "drop", routes)
}

#[test]
fn rejects_invalid_route_configuration() {
    let no_condition = RouteRule { to: "out".to_string(), when: None, default: false };
    let on_a_kernel = NodeConfig {
        kind: String::new(),
        kernel: "K".to_string(),
        ..plain_route(&["in"], vec![rule("out", None)])
    };
    for (n, needle) in [
        (plain_route(&["a", "b"], vec![rule("out", None)]), "exactly one input"),
        (plain_route(&["in"], vec![rule("typo", None)]), "unknown output port"),
        (plain_route(&["in"], vec![rule("out", None), rule("out", None)]), "at most one default"),
        (plain_route(&["in"], vec![no_condition]), "requires `when`"),
        (on_a_kernel, "only valid when `type: route`"),
    ] {
        let err = refused(plan(graph(vec![n], &[], &[])));
        assert!(err.text().contains(needle), "{}", err.text());
    }
}

#[test]
fn broken_conditions_are_refused() {
    let broken = RouteRule {
        to: "out".to_string(),
        when: Some(MetadataPredicate {
            form: String::new(),
            problem: Some("no such operator".to_string()),
        }),
        default: false,
    };
    let err = refused(plan(graph(vec![plain_route(&["in"], vec![broken])], &["in"], &["out"])));
    assert!(err.text().contains("no such operator"), "{}", err.text());
}

#[test]
fn diagnoses_shadowed_and_duplicate_route_rules() {
    let twice = || Some("score >= 0.5");
    let rules = vec![rule("a", twice()), rule("b", twice()), rule("b", None)];
    let n = route("router", &["in"], &["a", "b"], RouteMode::First, "error", rules);
    let first = ok(plan(graph(vec![n], &["in"], &["a", "b"])));
    let codes: Vec<String> = first.diagnostics().into_iter().map(|d| d.code).collect();
    assert!(codes.contains(&"route_shadowed_rule".to_string()));
    assert!(codes.contains(&"route_unreachable_unmatched".to_string()));

    let rules = vec![rule("out", twice()), rule("out", twice())];
    let n = route("router", &["in"], &["out"], RouteMode::All, "drop", rules);
    let all = ok(plan(graph(vec![n], &["in"], &["out"])));
    assert!(all.diagnostics().iter().any(|d| d.code == "route_duplicate_emit"));
}

// ------------------------------------------------------------------ subgraphs

fn subgraph(inputs: &[&str], outputs: &[&str], nodes: Vec<NodeConfig>) -> SubgraphConfig {
    SubgraphConfig { nodes, input_ports: names(inputs), output_ports: names(outputs) }
}

fn with_subgraph(cfg: GraphConfig, name: &str, body: SubgraphConfig) -> GraphConfig {
    let mut cfg = cfg;
    cfg.subgraphs.insert(name.to_string(), body);
    cfg
}

#[test]
fn no_subgraph_is_identity() {
    let cfg = ok(GraphConfig::from_yaml(graph(
        vec![node("n1", "PassThroughKernel", &["a"], &["b"])],
        &["a"],
        &["b"],
    )));
    assert_eq!(cfg.nodes.len(), 1);
    assert_eq!(cfg.nodes[0].name, "n1");
    assert_eq!(cfg.nodes[0].input_ports, vec!["a".to_string()]);
    assert_eq!(cfg.subgraphs.len(), 0);
}

#[test]
fn expands_chain_subgraph_with_namespaced_ports() {
    let cfg = with_subgraph(
        graph(
            vec![
                instance("d", "Denoise", &["raw"], &["clean"]),
                node("s", "ScaleKernel", &["clean"], &["final"]),
            ],
            &["raw"],
            &["final"],
        ),
        "Denoise",
        subgraph(
            &["sin"],
            &["sout"],
            vec![
                node("a", "BlurKernel", &["sin"], &["mid"]),
                node("b", "SharpenKernel", &["mid"], &["sout"]),
            ],
        ),
    );
    let flat = ok(expand(cfg));
    assert_eq!(flat.nodes.len(), 3);
    let found: Vec<&str> = flat.nodes.iter().map(|n| n.name.as_str()).collect();
    assert_eq!(found, vec!["d/a", "d/b", "s"]);
    assert_eq!(flat.nodes[0].input_ports, vec!["raw".to_string()]);
    assert_eq!(flat.nodes[0].output_ports, vec!["d/mid".to_string()]);
    assert_eq!(flat.nodes[1].input_ports, vec!["d/mid".to_string()]);
    assert_eq!(flat.nodes[1].output_ports, vec!["clean".to_string()]);
    assert!(flat.nodes.iter().all(|n| n.kind.is_empty()));
    assert_eq!(flat.subgraphs.len(), 0);
}

#[test]
fn unknown_subgraph_is_rejected() {
    let cfg = with_subgraph(
        graph(vec![instance("d", "Nope", &["raw"], &["clean"])], &["raw"], &["clean"]),
        "Denoise",
        subgraph(&["sin"], &["sout"], vec![]),
    );
    assert!(refused(expand(cfg)).text().contains("unknown subgraph"));
}

#[test]
fn arity_mismatch_is_rejected() {
    let cfg = with_subgraph(
        graph(vec![instance("d", "Two", &["raw"], &["clean"])], &["raw"], &["clean"]),
        "Two",
        subgraph(&["x", "y"], &["z"], vec![]),
    );
    assert!(refused(expand(cfg)).text().contains("input port"));
}

#[test]
fn cycle_is_rejected() {
    let cfg = with_subgraph(
        graph(vec![instance("a", "A", &["in"], &["out"])], &["in"], &["out"]),
        "A",
        subgraph(&["in"], &["out"], vec![instance("self", "A", &["in"], &["out"])]),
    );
    assert!(refused(expand(cfg)).text().contains("recursive"));
}

#[test]
fn both_kernel_and_type_is_rejected() {
    let both = NodeConfig {
        kernel: "Oops".to_string(),
        ..instance("d", "Denoise", &["raw"], &["clean"])
    };
    let cfg = with_subgraph(
        graph(vec![both], &["raw"], &["clean"]),
        "Denoise",
        subgraph(&["sin"], &["sout"], vec![]),
    );
    assert!(refused(expand(cfg)).text().contains("both"));
}

#[test]
fn nested_subgraphs_are_expanded_to_the_bottom() {
    let inner = subgraph(&["x"], &["y"], vec![node("k", "K", &["x"], &["y"])]);
    let outer = subgraph(
        &["p"],
        &["q"],
        vec![instance("i1", "Inner", &["p"], &["m"]), instance("i2", "Inner", &["m"], &["q"])],
    );
    let cfg = with_subgraph(
        with_subgraph(
            graph(vec![instance("o", "Outer", &["in"], &["out"])], &["in"], &["out"]),
            "Inner",
            inner,
        ),
        "Outer",
        outer,
    );
    let flat = ok(expand(cfg));
    let found: Vec<&str> = flat.nodes.iter().map(|n| n.name.as_str()).collect();
    assert_eq!(found, vec!["o/i1/k", "o/i2/k"]);
    assert_eq!(flat.nodes[0].input_ports, vec!["in"]);
    assert_eq!(flat.nodes[0].output_ports, vec!["o/m"]);
    assert_eq!(flat.nodes[1].input_ports, vec!["o/m"]);
    assert_eq!(flat.nodes[1].output_ports, vec!["out"]);
}

// -------------------------------------------------------------------- loading

#[test]
fn texts_of_loading_failures() {
    assert_eq!(parse_failure("line 3").text(), "YAML parse failed: line 3");
    assert_eq!(read_failure("g.yaml", "gone").code(), INVALID_ARG);
    assert!(read_failure("g.yaml", "gone").text().contains("failed to read `g.yaml`: gone"));
    assert!(include_failure("a.yaml", "gone").text().contains("include `a.yaml`: gone"));
}

#[test]
fn includes_need_a_file() {
    let cfg = GraphConfig { includes: names(&["lib.yaml"]), ..graph(vec![], &[], &[]) };
    assert!(refused(GraphConfig::from_yaml(cfg)).text().contains("include"));
}

fn one_subgraph(name: &str) -> TextMap<SubgraphConfig> {
    let mut m = TextMap::new();
    m.insert(name.to_string(), subgraph(&[], &[], vec![]));
    m
}

#[test]
fn includes_are_walked_depth_first() {
    let walk = IncludeWalk::new(
        Some("/d/main.yaml".to_string()),
        "/d",
        &names(&["a.yaml", "b.yaml"]),
        one_subgraph("Main"),
    );
    let (mut walk, wanted) = ok(walk.advance());
    let wanted = wanted.unwrap();
    assert_eq!((wanted.base.as_str(), wanted.rel.as_str()), ("/d", "a.yaml"));
    assert!(walk.found("/d/a.yaml".to_string()));
    walk.entered("a.yaml", "/d", &names(&["c.yaml"]), one_subgraph("A"));

    let (mut walk, wanted) = ok(walk.advance());
    assert_eq!(wanted.unwrap().rel, "c.yaml");
    assert!(walk.found("/d/c.yaml".to_string()));
    walk.entered("c.yaml", "/d", &names(&["main.yaml"]), one_subgraph("C"));

    let (mut walk, wanted) = ok(walk.advance());
    assert_eq!(wanted.unwrap().rel, "main.yaml");
    assert!(!walk.found("/d/main.yaml".to_string()));

    let (mut walk, wanted) = ok(walk.advance());
    assert_eq!(wanted.unwrap().rel, "b.yaml");
    assert!(walk.found("/d/b.yaml".to_string()));
    walk.entered("b.yaml", "/d", &names(&[]), one_subgraph("B"));

    let (walk, wanted) = ok(walk.advance());
    assert!(wanted.is_none());
    let all = walk.finish();
    assert_eq!(all.len(), 4);
    for name in ["A", "B", "C", "Main"] {
        assert!(all.contains_key(name));
    }
}

#[test]
fn subgraphs_are_defined_once() {
    let walk = IncludeWalk::new(None, "/d", &names(&["a.yaml"]), one_subgraph("Same"));
    let (mut walk, _) = ok(walk.advance());
    assert!(walk.found("/d/a.yaml".to_string()));
    walk.entered("a.yaml", "/d", &names(&[]), one_subgraph("Same"));
    let err = refused(walk.advance());
    assert_eq!(err.code(), INVALID_ARG);
    assert!(err.text().contains("Same"), "{}", err.text());
}

// ---------------------------------------------------------------------- plans

fn two_nodes() -> GraphPlan {
    let cfg = GraphConfig {
        executors: vec![executor("cpu", "ThreadPoolExecutor", 2)],
        ..graph(
            vec![
                NodeConfig {
                    executor: "cpu".to_string(),
                    ..node("first", "K", &["in"], &["mid"])
                },
                node("second", "K", &["mid"], &["out"]),
            ],
            &["in"],
            &["out"],
        )
    };
    ok(plan(cfg))
}

#[test]
fn plans_number_nodes_and_edges() {
    let p = two_nodes();
    assert_eq!(p.nodes[0].index, 0);
    assert_eq!(p.nodes[1].name, "second");
    let mid = p.edges.iter().find(|e| e.name == "mid").unwrap();
    assert_eq!(mid.producer, Some(0));
    assert_eq!(mid.consumers, vec![1]);
    assert!(!mid.graph_input && !mid.graph_output);
    assert_eq!(p.edges[p.graph_inputs[0]].name, "in");
    assert_eq!(p.edges[p.graph_outputs[0]].name, "out");
}

#[test]
fn plans_refuse_broken_wiring() {
    for (cfg, needle) in [
        (
            graph(vec![node("a", "K", &["y"], &["x"]), node("b", "K", &["x"], &["y"])], &[], &[]),
            "cycle",
        ),
        (graph(vec![node("a", "K", &["nowhere"], &["x"])], &[], &[]), "nowhere"),
        (
            graph(
                vec![node("a", "K", &["in"], &["dup"]), node("b", "K", &["in"], &["dup"])],
                &["in"],
                &[],
            ),
            "dup",
        ),
        (graph(vec![node("a", "K", &["in"], &["x"])], &["in"], &["ghost"]), "ghost"),
    ] {
        let err = refused(plan(cfg));
        assert!(err.text().contains(needle), "{}", err.text());
    }
}

#[test]
fn near_misses_get_a_hint() {
    let cfg = graph(vec![node("a", "K", &["metdata"], &["x"])], &["metadata"], &[]);
    let text = refused(plan(cfg)).text();
    assert!(text.contains("metadata"), "{text}");
}

#[test]
fn drawings_name_every_node_and_edge() {
    let dot = two_nodes().to_dot();
    assert!(dot.starts_with("digraph"), "{dot}");
    for needle in ["first", "second", "mid", "in", "out"] {
        assert!(dot.contains(needle), "{dot}");
    }
    let quoted = plan(graph(vec![node("a\"b", "K", &["in"], &["x"])], &["in"], &["x"]));
    assert!(ok(quoted).to_dot().contains("a\\\"b"));
}

// ------------------------------------------------------------------- summaries

#[test]
fn arguments_are_read() {
    let q = read_arguments(&names(&["check-config", "g.yaml"])).unwrap();
    assert_eq!(q.path, "g.yaml");
    assert!(matches!(q.form, Form::Text));
    let q = read_arguments(&names(&["check-config", "g.yaml", "--json"])).unwrap();
    assert!(matches!(q.form, Form::Json));
    let q = read_arguments(&names(&["check-config", "g.yaml", "--dot"])).unwrap();
    assert!(matches!(q.form, Form::Dot));
    for bad in [
        vec![],
        vec!["check-config"],
        vec!["other", "g.yaml"],
        vec!["check-config", "g.yaml", "--nope"],
    ] {
        assert!(read_arguments(&names(&bad)).is_none());
    }
    assert!(usage().starts_with("usage: lmflow"));
    assert_eq!((EXIT_ACCEPTED, EXIT_REFUSED, EXIT_USAGE), (0, 1, 2));
}

#[test]
fn summaries_follow_the_plan() {
    let p = two_nodes();
    let s = summary_json("g.yaml", &p);
    assert_eq!(s.path, "g.yaml");
    assert_eq!(s.nodes.len(), 2);
    assert_eq!(s.nodes[0].executor, "cpu");
    assert_eq!(s.executors.len(), 1);
    assert_eq!(s.graph_inputs, vec!["in"]);
    assert_eq!(s.graph_outputs, vec!["out"]);
    let mid = s.edges.iter().find(|e| e.name == "mid").unwrap();
    assert_eq!(mid.producer, "nodes[0]");
    assert_eq!(mid.consumers, vec!["nodes[1]"]);
    let input = s.edges.iter().find(|e| e.name == "in").unwrap();
    assert_eq!(input.producer, "graph");
    let text = print_summary("g.yaml", &p);
    assert!(text.contains("g.yaml") && text.contains("first"), "{text}");
}

#[test]
fn refusals_are_summarized() {
    let err = Error::InvalidArg("broken".to_string());
    let s = summarize_refusal("g.yaml", &err);
    assert_eq!((s.path.as_str(), s.code), ("g.yaml", INVALID_ARG));
    assert!(s.message.contains("broken"));
    assert!(refusal_line(&err).contains("broken"));
}

#[test]
fn expansion_keeps_tags_and_indices() {
    let cfg = with_subgraph(
        graph(vec![instance("d", "Part", &["raw"], &["clean"])], &["raw"], &["clean"]),
        "Part",
        subgraph(
            &["sin"],
            &["sout"],
            vec![
                node("s", "Split", &["sin"], &["x"]),
                node("m", "Merge", &["A:1:sin", ":2:x"], &["sout"]),
            ],
        ),
    );
    let flat = ok(expand(cfg));
    assert_eq!(flat.nodes[1].input_ports, names(&["A:1:raw", ":2:d/x"]));
    assert_eq!(flat.nodes[1].output_ports, names(&["clean"]));
}

#[test]
fn expansion_leaves_declarations_outside_subgraphs_alone() {
    let cfg = graph(vec![node("m", "Merge", &["A:1:in", ":2:x"], &["out"])], &["in", "x"], &["out"]);
    let flat = ok(expand(cfg));
    assert_eq!(flat.nodes[0].input_ports, names(&["A:1:in", ":2:x"]));
}

#[test]
fn groups_and_capacities_follow_their_ports() {
    let mut merge = node("m", "Merge", &["sin", "x"], &["sout"]);
    merge.input_policy = InputPolicyConfig {
        kind: "sync_set".to_string(),
        capacity: 0,
        sets: vec![names(&["sin"]), names(&["x"])],
    };
    merge.input_queues.ports.insert("x".to_string(), InputQueueLimitConfig { packets: Some(3) });
    let cfg = with_subgraph(
        graph(vec![instance("d", "Part", &["raw"], &["clean"])], &["raw"], &["clean"]),
        "Part",
        subgraph(&["sin"], &["sout"], vec![node("s", "Split", &["sin"], &["x"]), merge]),
    );
    let flat = ok(expand(cfg));
    assert_eq!(flat.nodes[1].input_policy.sets, vec![names(&["raw"]), names(&["d/x"])]);
    let queues = &flat.nodes[1].input_queues.ports;
    assert_eq!(queues.len(), 1);
    assert_eq!(queues.get("d/x").unwrap().packets, Some(3));
}
