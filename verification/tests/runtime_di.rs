use rustjvm::compiler::analyze_source;
use rustjvm::compiler::compile::EvalError;
use rustjvm::runtime::assemble::assemble_registry;
use rustjvm::runtime::registry::{BeanRegistry, DIError, NativeDef, NativeFn, RequestContext};
use std::collections::HashMap;
use std::sync::Arc;

const DI_APP: &str = r#"
package com.example.di;

import rustjvm.spring.context.Autowired;
import rustjvm.spring.context.Service;
import rustjvm.spring.web.GetMapping;
import rustjvm.spring.web.RequestParam;
import rustjvm.spring.web.RestController;

@Service
public class GreetingService {
    public String greet(String name) {
        return "Hello, " + name + "!";
    }
}

@RestController
public class HelloController {

    @Autowired
    private GreetingService greetingService;

    @GetMapping("/greet")
    public String greet(@RequestParam String name) {
        return greetingService.greet(name);
    }
}
"#;

fn assemble(src: &str) -> Result<BeanRegistry, DIError> {
    let a = analyze_source(src).unwrap();
    assemble_registry(&[(a.beans, a.classes)], Vec::new())
}

fn error_of(r: Result<BeanRegistry, DIError>) -> DIError {
    match r {
        Ok(_) => panic!("expected the registry to be refused"),
        Err(e) => e,
    }
}

#[test]
fn di_container_wires_autowired_fields() {
    let registry = assemble(DI_APP).unwrap();
    assert_eq!(registry.len(), 2);

    let controller = registry.get("helloController").unwrap();
    let service = controller.injected("greetingService").expect("wired");
    assert_eq!(service.class_name, "GreetingService");

    // Same instance by type lookup.
    let by_type = registry.get_by_type("HelloController").unwrap();
    assert!(Arc::ptr_eq(&controller, &by_type));
}

#[test]
fn controller_method_dispatches_through_registry() {
    let registry = assemble(DI_APP).unwrap();
    let controller = registry.get("helloController").unwrap();
    let out = controller.invoke("greet", &["world".to_string()], 0).unwrap();
    assert_eq!(out, "Hello, world!");
}

#[test]
fn missing_dependency_fails_fast() {
    let src = r#"
@RestController
public class C {
    @Autowired
    private MissingService missing;
    @GetMapping("/x")
    public String x() { return "x"; }
}
"#;
    let err = error_of(assemble(src));
    assert!(matches!(err, DIError::NoSuchBean(t) if t == "MissingService"));
}

#[test]
fn circular_dependency_reports_cycle_path() {
    let src = r#"
@Service
public class A { @Autowired private B b; public String a() { return "a"; } }

@Service
public class B { @Autowired private A a; public String b() { return "b"; } }
"#;
    let err = error_of(assemble(src));
    let DIError::Cycle(path) = err else {
        panic!("expected cycle, got {err:?}")
    };
    assert!(path.contains("->"), "cycle should show a path, got {path}");
}

#[test]
fn ambiguous_type_is_rejected() {
    // Two beans with the same simple class name (e.g. from different
    // packages) but distinct bean names: injection by type is ambiguous.
    let src = r#"
@Service("implA")
public class ImplOne { public String x() { return "1"; } }

@Service
public class Needs { @Autowired private ImplOne dep; public String x() { return dep.x(); } }
"#;
    let other = r#"@Service("implB") public class ImplOne { public String x() { return "2"; } }"#;
    let a1 = analyze_source(src).unwrap();
    let a2 = analyze_source(other).unwrap();
    let err = error_of(assemble_registry(
        &[(a1.beans, a1.classes), (a2.beans, a2.classes)],
        Vec::new(),
    ));
    assert!(matches!(err, DIError::Ambiguous(t, _) if t == "ImplOne"));
}

#[test]
fn deep_chains_wire_in_order() {
    let src = r#"
@Service
public class Leaf { public String value() { return "leaf"; } }

@Service
public class Middle {
    @Autowired private Leaf leaf;
    public String value() { return leaf.value() + "-mid"; }
}

@Service
public class Top {
    @Autowired private Middle middle;
    public String value() { return middle.value() + "-top"; }
}
"#;
    let registry = assemble(src).unwrap();
    let top = registry.get("top").unwrap();
    assert_eq!(top.invoke("value", &[], 0).unwrap(), "leaf-mid-top");
}

#[test]
fn factory_bean_methods_produce_wired_beans() {
    let src = r#"
package com.example.di;

public class PrefixService {
    public String prefix() { return "[rust] "; }
}

@Configuration
public class AppConfig {
    @Bean
    public PrefixService prefixService() { return new PrefixService(); }
}

@Service
public class GreetingService {
    @Autowired private PrefixService prefixService;
    public String greet(String name) { return prefixService.prefix() + "Hello, " + name + "!"; }
}
"#;
    let registry = assemble(src).unwrap();
    let prefix = registry.get("prefixService").unwrap();
    assert_eq!(prefix.class_name, "PrefixService");
    let svc = registry.get("greetingService").unwrap();
    assert_eq!(
        svc.invoke("greet", &["world".to_string()], 0).unwrap(),
        "[rust] Hello, world!"
    );
}

#[test]
fn singleton_injecting_request_scope_is_a_boot_violation() {
    let src = r#"
@Service
@Scope("request")
public class RequestThing { public String x() { return "x"; } }

@Service
public class SingletonThing {
    @Autowired private RequestThing requestThing;
    public String x() { return requestThing.x(); }
}
"#;
    let err = error_of(assemble(src));
    assert!(matches!(err, DIError::ScopeViolation { id, .. } if id == "requestThing"));
}

#[test]
fn prototype_scope_builds_fresh_instances() {
    let src = r#"
@Service
@Scope("prototype")
public class Fresh { public String x() { return "x"; } }
"#;
    let registry = assemble(src).unwrap();
    // Not a singleton: nothing in the singleton map.
    assert!(registry.get("fresh").is_none());

    let mut ctx = RequestContext::new(&registry);
    let a = ctx.resolve("fresh").unwrap();
    let b = ctx.resolve("fresh").unwrap();
    assert!(!Arc::ptr_eq(&a, &b), "prototype: each resolution is fresh");
    assert_eq!(a.invoke("x", &[], 0).unwrap(), "x");
}

#[test]
fn request_scope_is_cached_per_request_context() {
    let src = r#"
@Service
@Scope("request")
public class PerReq { public String x() { return "x"; } }
"#;
    let registry = assemble(src).unwrap();

    let mut ctx = RequestContext::new(&registry);
    let a = ctx.resolve("perReq").unwrap();
    let b = ctx.resolve("perReq").unwrap();
    assert!(Arc::ptr_eq(&a, &b), "same request: same instance");

    let mut ctx2 = RequestContext::new(&registry);
    let c = ctx2.resolve("perReq").unwrap();
    assert!(!Arc::ptr_eq(&a, &c), "next request: fresh instance");
}

#[test]
fn request_scoped_service_works_through_singleton_controller_in_ctx() {
    // A singleton controller MAY use a request-scoped bean when resolved
    // through a RequestContext — the violation only applies to boot-time
    // singleton wiring. (Spring does this with proxies; we do it with
    // per-request construction.)
    let src = r#"
@Service
@Scope("request")
public class ReqSvc { public String id() { return "req"; } }
"#;
    let registry = assemble(src).unwrap();
    let mut ctx = RequestContext::new(&registry);
    let svc = ctx.resolve_by_type("ReqSvc").unwrap();
    assert_eq!(svc.invoke("id", &[], 0).unwrap(), "req");
}

#[test]
fn java_to_rust_native_bean_injection() {
    // The headline criterion: a Rust-implemented bean injected into a Java
    // @Service by type, invoked across the zero-copy bridge.
    let src = r#"
@Service
public class SearchService {
    @Autowired
    private VectorStore vectorStore;

    public String find(String q) {
        return vectorStore.search(q);
    }
}

@RestController
public class SearchController {
    @Autowired
    private SearchService searchService;

    @GetMapping("/search")
    public String search(@RequestParam String q) {
        return searchService.find(q);
    }
}
"#;
    let mut methods: HashMap<String, NativeFn> = HashMap::new();
    methods.insert(
        "search".to_string(),
        Arc::new(|args: &[String]| Ok::<String, EvalError>(format!("vector::{}", args[0]))),
    );
    let natives = vec![NativeDef {
        name: "vectorStore".to_string(),
        class_name: "VectorStore".to_string(),
        methods,
    }];

    let a = analyze_source(src).unwrap();
    let registry = assemble_registry(&[(a.beans, a.classes)], natives).unwrap();

    // Native bean present, injectable by type.
    let native = registry.get_by_type("VectorStore").unwrap();
    assert_eq!(native.class_name, "VectorStore");

    // Java service has the native bean wired in.
    let svc = registry.get("searchService").unwrap();
    let wired = svc.injected("vectorStore").expect("native wired");
    assert!(Arc::ptr_eq(&wired, &native));

    // End of the chain: controller → service → Rust closure.
    let controller = registry.get("searchController").unwrap();
    assert_eq!(
        controller.invoke("search", &["cats".to_string()], 0).unwrap(),
        "vector::cats"
    );
}

#[test]
fn component_scan_filters_specs_outside_base_packages() {
    let app = r#"
package com.example.app;

@RustJVMApplication
public class App {
}
"#;
    let outside = r#"
package org.other;

@Service
public class Stray { public String x() { return "x"; } }
"#;
    let inside = r#"
package com.example.app.web;

@Service
public class Kept { public String x() { return "x"; } }
"#;
    let a = analyze_source(app).unwrap();
    let b = analyze_source(outside).unwrap();
    let c = analyze_source(inside).unwrap();
    let registry = assemble_registry(
        &[(a.beans, a.classes), (b.beans, b.classes), (c.beans, c.classes)],
        Vec::new(),
    )
    .unwrap();
    assert!(registry.get("kept").is_some());
    assert!(registry.get("stray").is_none(), "outside scan bases: excluded");
}

#[test]
fn singleton_reaching_request_scope_through_prototype_is_a_boot_violation() {
    let src = r#"
@Service
@Scope("request")
public class Session { public String id() { return "s"; } }

@Service
@Scope("prototype")
public class Helper {
    @Autowired private Session session;
    public String id() { return session.id(); }
}

@Service
public class Front {
    @Autowired private Helper helper;
    public String id() { return helper.id(); }
}
"#;
    let err = error_of(assemble(src));
    assert!(matches!(err, DIError::ScopeViolation { id, .. } if id == "session"));
}

#[test]
fn request_scope_reached_only_from_request_time_beans_is_accepted() {
    let src = r#"
@Service
@Scope("request")
public class Session { public String id() { return "s"; } }

@Service
@Scope("prototype")
public class Helper {
    @Autowired private Session session;
    public String id() { return session.id(); }
}

@Service
public class Plain { public String x() { return "plain"; } }
"#;
    let registry = assemble(src).unwrap();
    assert_eq!(registry.len(), 1);
    let mut ctx = RequestContext::new(&registry);
    let helper = ctx.resolve("helper").unwrap();
    assert_eq!(helper.invoke("id", &[], 0).unwrap(), "s");
}

#[test]
fn singleton_over_prototype_without_request_scope_is_built() {
    let src = r#"
@Service
@Scope("prototype")
public class Part { public String name() { return "part"; } }

@Service
public class Whole {
    @Autowired private Part part;
    public String describe() { return "whole of " + part.name(); }
}
"#;
    let registry = assemble(src).unwrap();
    let whole = registry.get("whole").unwrap();
    assert_eq!(whole.invoke("describe", &[], 0).unwrap(), "whole of part");
}

#[test]
fn cycle_path_names_each_bean_once() {
    let src = r#"
@Service
public class A { @Autowired private B b; public String a() { return "a"; } }

@Service
public class B { @Autowired private C c; public String b() { return "b"; } }

@Service
public class C { @Autowired private A a; public String c() { return "c"; } }
"#;
    let err = error_of(assemble(src));
    let DIError::Cycle(path) = err else {
        panic!("expected cycle, got {err:?}")
    };
    let names: Vec<&str> = path.split(" -> ").collect();
    assert_eq!(names.len(), 4, "three beans and the start again: {path}");
    assert_eq!(names[0], names[3]);
    let mut inner = names[..3].to_vec();
    inner.sort();
    assert_eq!(inner, vec!["a", "b", "c"]);
}

#[test]
fn nested_calls_answer_through_each_injected_bean() {
    let src = r#"
@Service
public class Suffix { public String tail() { return "!"; } }

@Service
public class Greeter {
    @Autowired private Suffix suffix;
    public String greet(String name) { return "Hi " + name + suffix.tail(); }
}

@RestController
public class Front {
    @Autowired private Greeter greeter;
    public String hello(String who) { return "<" + greeter.greet(who) + ">"; }
}
"#;
    let registry = assemble(src).unwrap();
    let front = registry.get("front").unwrap();
    assert_eq!(front.invoke("hello", &["bob".to_string()], 0).unwrap(), "<Hi bob!>");
}

#[test]
fn native_method_receives_the_call_arguments() {
    let mut methods: HashMap<String, NativeFn> = HashMap::new();
    methods.insert(
        "join".to_string(),
        Arc::new(|args: &[String]| Ok::<String, EvalError>(format!("{}:{}", args.len(), args.join("+")))),
    );
    methods.insert(
        "fail".to_string(),
        Arc::new(|_: &[String]| Err::<String, EvalError>(EvalError::MissingParam("x".to_string()))),
    );
    let natives = vec![NativeDef { name: "joiner".to_string(), class_name: "Joiner".to_string(), methods }];
    let registry = assemble_registry(&[], natives).unwrap();
    let joiner = registry.get("joiner").unwrap();
    let args = vec!["a".to_string(), "b".to_string(), "c".to_string()];
    assert_eq!(joiner.invoke("join", &args, 0).unwrap(), "3:a+b+c");
    assert!(matches!(joiner.invoke("fail", &args, 0), Err(EvalError::MissingParam(p)) if p == "x"));
    assert!(matches!(joiner.invoke("nope", &args, 0), Err(EvalError::Unimplemented(_))));
}

#[test]
fn failing_nested_call_is_the_answer() {
    let src = r#"
@Service
public class Inner { public String ok() { return "fine"; } }

@Service
public class Outer {
    @Autowired private Inner inner;
    public String run() { return "a" + inner.missing() + "b"; }
}
"#;
    let registry = assemble(src).unwrap();
    let outer = registry.get("outer").unwrap();
    match outer.invoke("run", &[], 0) {
        Err(EvalError::Unimplemented(why)) => assert!(why.contains("no such method"), "{why}"),
        other => panic!("expected the nested failure, got {other:?}"),
    }
}

#[test]
fn request_time_beans_are_built_from_their_specs() {
    let src = r#"
@Service
@Scope("prototype")
public class Proto { public String hi(String n) { return "hi " + n; } }

@Service
@Scope("request")
public class PerReq { public String id() { return "req"; } }
"#;
    let registry = assemble(src).unwrap();
    assert_eq!(registry.len(), 0);
    let mut ctx = RequestContext::new(&registry);
    let p = ctx.resolve("proto").unwrap();
    assert_eq!(p.class_name, "Proto");
    assert_eq!(p.invoke("hi", &["x".to_string()], 0).unwrap(), "hi x");
    let r = ctx.resolve_by_type("PerReq").unwrap();
    assert_eq!(r.invoke("id", &[], 0).unwrap(), "req");
}
