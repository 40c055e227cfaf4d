use rustjvm::compiler::analyze_source;
use rustjvm::compiler::compile::CompiledRoute;
use rustjvm::hotreload::{prepare_reload, CachedFile, SourceCache};
use rustjvm::runtime::assemble::assemble_registry;
use rustjvm::runtime::dispatch::RouteTable;
use rustjvm::runtime::http::answer_request;
use rustjvm::runtime::registry::BeanRegistry;
use rustjvm::runtime::telemetry::{ArenaMetrics, Telemetry};
use std::collections::HashMap;
use std::sync::Arc;

const HELLO_V1: &str = r#"
import rustjvm.spring.web.GetMapping;
import rustjvm.spring.web.RequestParam;
import rustjvm.spring.web.RestController;

@RestController
public class HelloController {

    @GetMapping("/hello")
    public String hello(@RequestParam String name) {
        return "Hello, " + name + "!";
    }
}
"#;

const HELLO_V2: &str = r#"
import rustjvm.spring.web.GetMapping;
import rustjvm.spring.web.RequestParam;
import rustjvm.spring.web.RestController;

@RestController
public class HelloController {

    @GetMapping("/hello")
    public String hello(@RequestParam String name) {
        return "Hi, " + name + "!";
    }
}
"#;

const HELLO_BROKEN: &str = "public class HelloController { {{{ not java";

const DI_SERVICE_V1: &str = r#"
import rustjvm.spring.context.Service;

@Service
public class GreetingService {
    public String greet(String name) {
        return "Hello, " + name + "!";
    }
}
"#;

const DI_SERVICE_V2: &str = r#"
import rustjvm.spring.context.Service;

@Service
public class GreetingService {
    public String greet(String name) {
        return "Howdy, " + name + "!";
    }
}
"#;

const DI_CONTROLLER: &str = r#"
import rustjvm.spring.context.Autowired;
import rustjvm.spring.web.GetMapping;
import rustjvm.spring.web.RequestParam;
import rustjvm.spring.web.RestController;

@RestController
public class GreetController {

    @Autowired
    private GreetingService greetingService;

    @GetMapping("/greet")
    public String greet(@RequestParam String name) {
        return greetingService.greet(name);
    }
}
"#;

/// Service references a bean that doesn't exist — valid Java, broken graph.
const DI_SERVICE_BROKEN_GRAPH: &str = r#"
import rustjvm.spring.context.Autowired;
import rustjvm.spring.context.Service;

@Service
public class GreetingService {
    @Autowired
    private MissingThing missing;

    public String greet(String name) {
        return "broken";
    }
}
"#;

/// A running application as the server holds it: routes, registry, and the
/// scan cache the reloader keeps.
struct App {
    table: RouteTable<Arc<CompiledRoute>>,
    registry: Arc<BeanRegistry>,
    cache: SourceCache,
}

impl App {
    fn start(files: &[(&str, &str)]) -> App {
        let mut table = RouteTable::new();
        let mut cache = SourceCache::new();
        for (name, contents) in files {
            let analysis = analyze_source(contents).expect("initial source compiles");
            for route in analysis.routes {
                let (m, p) = (route.http_method.clone(), route.path.clone());
                table.install(&m, &p, Arc::new(route));
            }
            cache.insert(name.to_string(), CachedFile { beans: analysis.beans, classes: analysis.classes });
        }
        let registry = match assemble_registry(cache.files(), Vec::new()) {
            Ok(r) => r,
            Err(e) => panic!("boot failed: {e:?}"),
        };
        App { table, registry: Arc::new(registry), cache }
    }

    /// What the reloader does when a file changes: swap routes and registry
    /// together, or keep everything as it was.
    fn patch_file(&mut self, name: &str, contents: &str) -> bool {
        match prepare_reload(&mut self.cache, name, contents, Vec::new()) {
            Ok(plan) => {
                for route in plan.routes {
                    let (m, p) = (route.http_method.clone(), route.path.clone());
                    self.table.install(&m, &p, Arc::new(route));
                }
                self.registry = Arc::new(plan.registry);
                true
            }
            Err(_) => false,
        }
    }

    fn get(&self, path: &str, query: &[(&str, &str)]) -> (u16, String) {
        let route = self.table.resolve("GET", path).cloned();
        let q: HashMap<String, String> =
            query.iter().map(|(k, v)| (k.to_string(), v.to_string())).collect();
        let answer = answer_request(
            route.as_deref(),
            "GET",
            path,
            &q,
            &self.registry,
            &Telemetry::new(),
            &ArenaMetrics::new(),
        );
        (answer.reply.status, answer.reply.body)
    }
}

#[test]
fn hot_swap_mid_test() {
    let mut app = App::start(&[("HelloController.java", HELLO_V1)]);
    assert_eq!(app.get("/hello", &[("name", "a")]).1, "Hello, a!");
    let in_flight = app.table.resolve("GET", "/hello").cloned().unwrap();

    assert!(app.patch_file("HelloController.java", HELLO_V2));
    assert_eq!(app.get("/hello", &[("name", "a")]).1, "Hi, a!");
    assert_eq!(app.table.route_count(), 1);

    // The request that resolved the old version drains against it.
    let args = HashMap::from([("name".to_string(), "a".to_string())]);
    assert_eq!(in_flight.implementation.eval(&args).unwrap(), "Hello, a!");
}

#[test]
fn broken_edit_keeps_previous_version() {
    let mut app = App::start(&[("HelloController.java", HELLO_V1)]);
    assert_eq!(app.get("/hello", &[("name", "a")]).1, "Hello, a!");

    assert!(!app.patch_file("HelloController.java", HELLO_BROKEN));
    let (status, body) = app.get("/hello", &[("name", "a")]);
    assert_eq!(status, 200);
    assert_eq!(body, "Hello, a!", "broken edit must not swap anything");

    assert!(app.patch_file("HelloController.java", HELLO_V2));
    assert_eq!(app.get("/hello", &[("name", "a")]).1, "Hi, a!");
}

#[test]
fn hot_reload_preserves_autowired_dependencies() {
    let mut app = App::start(&[
        ("GreetingService.java", DI_SERVICE_V1),
        ("GreetController.java", DI_CONTROLLER),
    ]);
    assert_eq!(app.get("/greet", &[("name", "b")]).1, "Hello, b!");

    // Swap the @Service: the controller is rewired to the new bean and keeps
    // answering through the injected field.
    assert!(app.patch_file("GreetingService.java", DI_SERVICE_V2));
    assert_eq!(app.get("/greet", &[("name", "b")]).1, "Howdy, b!");
}

#[test]
fn broken_bean_graph_keeps_previous_version() {
    let mut app = App::start(&[
        ("GreetingService.java", DI_SERVICE_V1),
        ("GreetController.java", DI_CONTROLLER),
    ]);
    assert_eq!(app.get("/greet", &[("name", "b")]).1, "Hello, b!");

    // An unsatisfiable dependency: compile succeeds, wiring fails. Both
    // routes and registry stay on the previous version.
    assert!(!app.patch_file("GreetingService.java", DI_SERVICE_BROKEN_GRAPH));
    assert_eq!(
        app.get("/greet", &[("name", "b")]).1,
        "Hello, b!",
        "broken graph must not swap routes or registry"
    );

    // Recovery works.
    assert!(app.patch_file("GreetingService.java", DI_SERVICE_V2));
    assert_eq!(app.get("/greet", &[("name", "b")]).1, "Howdy, b!");
}
