use rustjvm::compiler::compile::CompiledRoute;
use rustjvm::compiler::compile_source;
use rustjvm::runtime::dispatch::{InstallOutcome, RouteTable};
use std::collections::HashMap;
use std::sync::Arc;

fn controller(greeting: &str) -> String {
    format!(
        r#"@RestController
public class C {{
    @GetMapping("/x")
    public String x() {{
        return "{greeting}";
    }}
}}"#
    )
}

fn only_route(src: &str) -> CompiledRoute {
    compile_source(src).unwrap().into_iter().next().unwrap()
}

fn install(table: &mut RouteTable<Arc<CompiledRoute>>, route: CompiledRoute) -> InstallOutcome {
    let method = route.http_method.clone();
    let path = route.path.clone();
    table.install(&method, &path, Arc::new(route))
}

fn no_args() -> HashMap<String, String> {
    HashMap::new()
}

#[test]
fn swap_is_atomic_and_in_flight_requests_drain() {
    let mut table = RouteTable::new();

    assert!(matches!(
        install(&mut table, only_route(&controller("one"))),
        InstallOutcome::Registered
    ));

    // A request resolves the old version and is still holding it...
    let in_flight = table.resolve("GET", "/x").unwrap().clone();
    assert_eq!(in_flight.implementation.eval(&no_args()).unwrap(), "one");

    // ...when the new version is swapped in.
    assert!(matches!(
        install(&mut table, only_route(&controller("two"))),
        InstallOutcome::Swapped
    ));

    // New requests get the new code immediately.
    let fresh = table.resolve("GET", "/x").unwrap().clone();
    assert_eq!(fresh.implementation.eval(&no_args()).unwrap(), "two");

    // The in-flight request still drains against the old code — never yanked.
    assert_eq!(in_flight.implementation.eval(&no_args()).unwrap(), "one");

    assert_eq!(table.route_count(), 1);
}

#[test]
fn any_method_routes_match_all_verbs() {
    let mut table = RouteTable::new();
    let src = r#"
@RestController
public class C {
    @RequestMapping("/multi")
    public String multi() { return "ok"; }
}
"#;
    install(&mut table, only_route(src));
    for verb in ["GET", "POST", "DELETE"] {
        assert!(table.resolve(verb, "/multi").is_some());
    }
    assert!(table.resolve("GET", "/nope").is_none());
}

#[test]
fn method_keys_are_case_insensitive() {
    let mut table: RouteTable<u32> = RouteTable::new();
    assert_eq!(table.install("get", "/a", 1), InstallOutcome::Registered);
    assert_eq!(table.install("GET", "/a", 2), InstallOutcome::Swapped);
    assert_eq!(table.resolve("Get", "/a"), Some(&2));
    assert_eq!(table.resolve("POST", "/a"), None);
    assert_eq!(table.install("POST", "/a", 3), InstallOutcome::Registered);
    assert_eq!(table.route_count(), 2);
    assert_eq!(*table.slot(1), 3);
}

#[test]
fn exact_method_wins_over_any() {
    let mut table: RouteTable<&str> = RouteTable::new();
    table.install("ANY", "/p", "any");
    table.install("POST", "/p", "post");
    assert_eq!(table.resolve("POST", "/p"), Some(&"post"));
    assert_eq!(table.resolve("GET", "/p"), Some(&"any"));
}
