use rustjvm::compiler::compile_source;
use rustjvm::compiler::analyze_source;
use rustjvm::compiler::compile::EvalError;
use rustjvm::runtime::assemble::assemble_registry;
use rustjvm::runtime::http::{
    answer_request, bind_params, eval_reply, route_reply, unmatched_reply, ContentType,
};
use rustjvm::runtime::registry::{BeanRegistry, NativeDef, NativeFn};
use rustjvm::runtime::telemetry::{ArenaMetrics, Telemetry};
use std::collections::HashMap;
use std::sync::Arc;

const APP: &str = r#"
package com.example;

@Service
public class GreetingService {
    public String greet(String name) { return "Hello, " + name + "!"; }
}

@RestController
public class HelloController {
    @Autowired private GreetingService greetingService;

    @GetMapping("/greet")
    public String greet(@RequestParam String name) { return greetingService.greet(name); }

    @GetMapping("/opt")
    public String opt(@RequestParam(value = "n", required = false) String n) { return "opt"; }
}
"#;

fn query(pairs: &[(&str, &str)]) -> HashMap<String, String> {
    pairs.iter().map(|(k, v)| (k.to_string(), v.to_string())).collect()
}

#[test]
fn missing_required_query_parameter_is_400() {
    let routes = compile_source(APP).unwrap();
    let greet = routes.iter().find(|r| r.path == "/greet").unwrap();
    let reply = route_reply(greet, &query(&[]), &BeanRegistry::empty());
    assert_eq!(reply.status, 400);
    assert_eq!(reply.body, "missing required query parameter 'name'\n");
}

#[test]
fn route_evaluates_through_injected_service() {
    let a = analyze_source(APP).unwrap();
    let routes = a.routes.clone();
    let registry = match assemble_registry(&[(a.beans, a.classes)], Vec::new()) {
        Ok(r) => r,
        Err(e) => panic!("{e:?}"),
    };
    let greet = routes.iter().find(|r| r.path == "/greet").unwrap();
    let reply = route_reply(greet, &query(&[("name", "world")]), &registry);
    assert_eq!(reply.status, 200);
    assert_eq!(reply.content_type, ContentType::Text);
    assert_eq!(reply.body, "Hello, world!");
}

#[test]
fn without_beans_a_call_is_501() {
    let routes = compile_source(APP).unwrap();
    let greet = routes.iter().find(|r| r.path == "/greet").unwrap();
    let reply = route_reply(greet, &query(&[("name", "x")]), &BeanRegistry::empty());
    assert_eq!(reply.status, 501);
    assert!(reply.body.starts_with("501 — method outside the compiler subset: "));
}

#[test]
fn binding_takes_present_keys_and_skips_optional_ones() {
    let routes = compile_source(APP).unwrap();
    let opt = routes.iter().find(|r| r.path == "/opt").unwrap();
    let args = bind_params(&opt.params, &query(&[])).unwrap();
    assert!(args.is_empty());
    let args = bind_params(&opt.params, &query(&[("n", "5"), ("other", "x")])).unwrap();
    assert_eq!(args.len(), 1);
    assert_eq!(args.get("n").map(String::as_str), Some("5"));
    let greet = routes.iter().find(|r| r.path == "/greet").unwrap();
    assert_eq!(bind_params(&greet.params, &query(&[])).unwrap_err(), "name");
}

#[test]
fn evaluation_errors_map_to_statuses() {
    let ok = eval_reply(Ok("body".to_string()));
    assert_eq!((ok.status, ok.body.as_str()), (200, "body"));
    let missing = eval_reply(Err(EvalError::MissingParam("p".to_string())));
    assert_eq!((missing.status, missing.body.as_str()), (400, "missing parameter 'p'\n"));
    let unimpl = eval_reply(Err(EvalError::Unimplemented("why".to_string())));
    assert_eq!(unimpl.status, 501);
    assert_eq!(unimpl.body, "501 — method outside the compiler subset: why\n");
}

#[test]
fn builtin_endpoints_and_404() {
    let t = Telemetry::new();
    let m = ArenaMetrics::new();
    let (health, label) = unmatched_reply("GET", "/health", &t, &m);
    assert_eq!((health.status, health.body.as_str(), label.as_str()), (200, "ok", "/health"));
    let (metrics, label) = unmatched_reply("GET", "/metrics", &t, &m);
    assert_eq!(metrics.status, 200);
    assert_eq!(metrics.content_type, ContentType::Prometheus);
    assert_eq!(metrics.body, t.render_prometheus(&m));
    assert_eq!(label, "/metrics");
    let (nf, label) = unmatched_reply("POST", "/nope", &t, &m);
    assert_eq!((nf.status, nf.body.as_str(), label.as_str()), (404, "no route: POST /nope\n", "<unmatched>"));
}

#[test]
fn app_routes_win_over_builtin_endpoints() {
    let src = r#"
@RestController
public class Health {
    @GetMapping("/health")
    public String health() { return "app health"; }
}
"#;
    let routes = compile_source(src).unwrap();
    let t = Telemetry::new();
    let m = ArenaMetrics::new();
    let registry = BeanRegistry::empty();
    let routed = answer_request(Some(&routes[0]), "GET", "/health", &query(&[]), &registry, &t, &m);
    assert_eq!(routed.reply.body, "app health");
    assert_eq!(routed.counted_as.as_deref(), Some("/health"));
    let builtin = answer_request(None, "GET", "/health", &query(&[]), &registry, &t, &m);
    assert_eq!(builtin.reply.body, "ok");
}

#[test]
fn refused_queries_are_not_counted() {
    let routes = compile_source(APP).unwrap();
    let greet = routes.iter().find(|r| r.path == "/greet").unwrap();
    let t = Telemetry::new();
    let m = ArenaMetrics::new();
    let answer = answer_request(Some(greet), "GET", "/greet", &query(&[]), &BeanRegistry::empty(), &t, &m);
    assert_eq!(answer.reply.status, 400);
    assert!(answer.counted_as.is_none());
    let unmatched = answer_request(None, "GET", "/nope", &query(&[]), &BeanRegistry::empty(), &t, &m);
    assert_eq!(unmatched.reply.status, 404);
    assert_eq!(unmatched.counted_as.as_deref(), Some("<unmatched>"));
}

#[test]
fn rust_native_bean_serves_over_http() {
    // Java sources reference a VectorStore that exists only in Rust.
    let src = r#"
@Service
public class SearchService {
    @Autowired
    private VectorStore vectorStore;

    public String find(String q) {
        return vectorStore.search(q);
    }
}

@RestController
public class SearchController {
    @Autowired
    private SearchService searchService;

    @GetMapping("/search")
    public String search(@RequestParam String q) {
        return searchService.find(q);
    }
}
"#;
    let mut methods: HashMap<String, NativeFn> = HashMap::new();
    methods.insert(
        "search".to_string(),
        Arc::new(|args: &[String]| Ok::<String, EvalError>(format!("vector::{}", args[0]))),
    );
    let natives = vec![NativeDef {
        name: "vectorStore".to_string(),
        class_name: "VectorStore".to_string(),
        methods,
    }];
    let a = analyze_source(src).unwrap();
    let routes = a.routes.clone();
    let registry = match assemble_registry(&[(a.beans, a.classes)], natives) {
        Ok(r) => r,
        Err(e) => panic!("{e:?}"),
    };
    let search = routes.iter().find(|r| r.path == "/search").unwrap();
    let reply = route_reply(search, &query(&[("q", "cats")]), &registry);
    assert_eq!(reply.status, 200);
    assert_eq!(reply.body, "vector::cats");
}

#[test]
fn metrics_count_served_requests() {
    let a = analyze_source(APP).unwrap();
    let routes = a.routes.clone();
    let registry = match assemble_registry(&[(a.beans, a.classes)], Vec::new()) {
        Ok(r) => r,
        Err(e) => panic!("{e:?}"),
    };
    let greet = routes.iter().find(|r| r.path == "/greet").unwrap();
    let mut t = Telemetry::new();
    let m = ArenaMetrics::new();
    for _ in 0..2 {
        let answer = answer_request(Some(greet), "GET", "/greet", &query(&[("name", "metrics")]), &registry, &t, &m);
        let label = answer.counted_as.unwrap();
        t.record_request("GET", &label, answer.reply.status, 7);
    }
    let health = answer_request(None, "GET", "/health", &query(&[]), &registry, &t, &m);
    assert_eq!((health.reply.status, health.reply.body.as_str()), (200, "ok"));
    let metrics = answer_request(None, "GET", "/metrics", &query(&[]), &registry, &t, &m);
    assert!(metrics
        .reply
        .body
        .contains("rustjvm_http_requests_total{method=\"GET\",path=\"/greet\",status=\"200\"} 2"));
    assert!(metrics.reply.body.contains("rustjvm_arena_active 0"));
    assert!(metrics.reply.body.contains("rustjvm_hot_reloads_total"));
}
