use rustjvm::compiler::analyze_source;
use rustjvm::hotreload::{prepare_reload, CachedFile, ReloadError, SourceCache};
use rustjvm::runtime::registry::DIError;

const SERVICE: &str = r#"
package com.example;

@Service
public class GreetingService {
    public String greet(String name) { return "Hello, " + name + "!"; }
}
"#;

const CONTROLLER_V1: &str = r#"
package com.example;

@RestController
public class HelloController {
    @Autowired private GreetingService greetingService;

    @GetMapping("/hello")
    public String hello(@RequestParam String name) { return greetingService.greet(name); }
}
"#;

const CONTROLLER_V2: &str = r#"
package com.example;

@RestController
public class HelloController {
    @Autowired private GreetingService greetingService;

    @GetMapping("/hello")
    public String hello(@RequestParam String name) { return "v2 " + name; }

    @GetMapping("/bye")
    public String bye() { return "bye"; }
}
"#;

const BROKEN_GRAPH: &str = r#"
package com.example;

@RestController
public class HelloController {
    @Autowired private MissingService missing;

    @GetMapping("/hello")
    public String hello() { return "x"; }
}
"#;

fn cached(src: &str) -> CachedFile {
    let a = analyze_source(src).unwrap();
    CachedFile { beans: a.beans, classes: a.classes }
}

fn boot_cache() -> SourceCache {
    let mut cache = SourceCache::new();
    cache.insert("Service.java".to_string(), cached(SERVICE));
    cache.insert("Controller.java".to_string(), cached(CONTROLLER_V1));
    cache
}

#[test]
fn successful_reload_swaps_routes_and_registry() {
    let mut cache = boot_cache();
    let plan = prepare_reload(&mut cache, "Controller.java", CONTROLLER_V2, Vec::new())
        .unwrap_or_else(|_| panic!("reload refused"));
    assert_eq!(plan.routes.len(), 2);
    assert_eq!(plan.registry.len(), 2);
    assert!(plan.registry.get("helloController").is_some());
    assert_eq!(cache.len(), 2);
}

#[test]
fn broken_edit_keeps_cache_unchanged() {
    let mut cache = boot_cache();
    let before = cache.files()[1].0.len();
    match prepare_reload(&mut cache, "Controller.java", "@RestController public class {", Vec::new()) {
        Err(ReloadError::Compile(_)) => {}
        _ => panic!("expected a compile error"),
    }
    assert_eq!(cache.len(), 2);
    assert_eq!(cache.files()[1].0.len(), before);
}

#[test]
fn broken_bean_graph_rolls_back_a_replaced_file() {
    let mut cache = boot_cache();
    match prepare_reload(&mut cache, "Controller.java", BROKEN_GRAPH, Vec::new()) {
        Err(ReloadError::BeanGraph(DIError::NoSuchBean(t))) => assert_eq!(t, "MissingService"),
        _ => panic!("expected the bean graph to be refused"),
    }
    assert_eq!(cache.len(), 2);
    // The previous controller (with its greetingService dependency) is back.
    assert_eq!(cache.files()[1].0[0].dependencies[0].ty, "GreetingService");
}

#[test]
fn broken_bean_graph_rolls_back_a_new_file() {
    let mut cache = boot_cache();
    assert!(prepare_reload(&mut cache, "Other.java", BROKEN_GRAPH, Vec::new()).is_err());
    assert_eq!(cache.len(), 2);
}

#[test]
fn scan_filter_applies_to_reloaded_routes() {
    let mut cache = SourceCache::new();
    cache.insert(
        "App.java".to_string(),
        cached("package com.example.app;\n@RustJVMApplication\npublic class App {}\n"),
    );
    let outside = "package org.other;\n@RestController\npublic class X {\n@GetMapping(\"/x\")\npublic String x() { return \"x\"; }\n}\n";
    let plan = prepare_reload(&mut cache, "X.java", outside, Vec::new())
        .unwrap_or_else(|_| panic!("reload refused"));
    assert!(plan.routes.is_empty(), "routes outside the scan bases are not installed");
    assert_eq!(cache.len(), 2);
}

#[test]
fn cache_insert_replaces_in_place() {
    let mut cache = SourceCache::new();
    assert!(cache.insert("a".to_string(), cached(SERVICE)).is_none());
    assert!(cache.insert("b".to_string(), cached(CONTROLLER_V1)).is_none());
    let prev = cache.insert("a".to_string(), cached(CONTROLLER_V2)).unwrap();
    assert_eq!(prev.beans[0].class_name, "GreetingService");
    assert_eq!(cache.len(), 2);
    assert_eq!(cache.files()[0].0[0].class_name, "HelloController");
    assert!(cache.remove("a").is_some());
    assert!(cache.remove("a").is_none());
    assert_eq!(cache.len(), 1);
}
