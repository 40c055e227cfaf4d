use rustjvm::cli::{
    health_ok, main_scan_base, parse_u16, resolve_port, route_lines, routes_under, scaffold_files,
    valid_package_name,
};
use rustjvm::compiler::analyze_source;
use rustjvm::compiler::compile_source;

#[test]
fn new_rejects_invalid_package() {
    assert!(!valid_package_name("not a package!"));
}

#[test]
fn package_names_follow_java_rules() {
    assert!(valid_package_name("com.example"));
    assert!(valid_package_name("a_b.c1"));
    assert!(!valid_package_name(""));
    assert!(!valid_package_name(".com"));
    assert!(!valid_package_name("com."));
    assert!(!valid_package_name("com..example"));
    assert!(!valid_package_name("com-example"));
}

#[test]
fn scaffold_fills_in_the_package() {
    let files = scaffold_files("com.example");
    let paths: Vec<&str> = files.iter().map(|f| f.path.as_str()).collect();
    assert_eq!(
        paths,
        vec![
            "src/HelloService.java",
            "src/HelloController.java",
            "src/App.java",
            "rustjvm.toml",
            "pom.xml",
            "README.md"
        ]
    );
    let app = &files[2].contents;
    assert!(app.contains("package com.example;"));
    assert!(app.contains("@RustJVMApplication"));
    assert!(app.contains("RustJVMBootstrap.run(App.class, args)"));
    assert!(files[4].contents.contains("<groupId>com.example</groupId>"));
    assert!(files[5].contents.starts_with("# com.example\n"));
    assert!(files.iter().all(|f| !f.contents.contains("{package}")));
}

#[test]
fn scaffolded_sources_compile_to_the_hello_route() {
    let files = scaffold_files("com.example");
    let routes = compile_source(&files[1].contents).unwrap();
    assert_eq!(routes.len(), 1);
    let lines = route_lines(&routes);
    assert_eq!(lines.len(), 1);
    assert!(lines[0].contains("/hello"));
    assert!(lines[0].contains("HelloController.hello"));
}

#[test]
fn route_listing_is_padded_and_sorted_by_path() {
    let src = r#"
@RestController
public class C {
    @GetMapping("/b")
    public String b() { return "b"; }
    @PostMapping("/a")
    public String a() { return "a"; }
    @GetMapping("/b2")
    public String b2() { return "b2"; }
}
"#;
    let routes = compile_source(src).unwrap();
    let lines = route_lines(&routes);
    assert_eq!(
        lines,
        vec![
            format!("  {:<6} {:<24} -> C.a", "POST", "/a"),
            format!("  {:<6} {:<24} -> C.b", "GET", "/b"),
            format!("  {:<6} {:<24} -> C.b2", "GET", "/b2"),
        ]
    );
}

#[test]
fn port_flag_then_env_then_default() {
    assert_eq!(resolve_port(Some(9000), Some("7000")), 9000);
    assert_eq!(resolve_port(None, Some("7000")), 7000);
    assert_eq!(resolve_port(None, Some("not a port")), 8080);
    assert_eq!(resolve_port(None, Some("70000")), 8080);
    assert_eq!(resolve_port(None, None), 8080);
}

#[test]
fn port_parsing_matches_str_parse() {
    for s in ["0", "+80", "65535", "65536", "", "+", "-1", "08080", " 80", "1a", "99999999999"] {
        assert_eq!(parse_u16(s), s.parse::<u16>().ok(), "input {s:?}");
    }
}

#[test]
fn main_class_gives_its_package_as_scan_base() {
    let src = r#"
package com.example.app;

@RustJVMApplication
public class App {
}
"#;
    let a = analyze_source(src).unwrap();
    let routes = a.routes;
    let files = vec![(a.beans, a.classes)];
    let scan = main_scan_base("com.example.app.App", &routes, &files);
    assert_eq!(scan.package, "com.example.app");
    assert!(scan.class_seen);
    assert!(scan.package_seen);

    let typo = main_scan_base("com.example.ap.Apx", &routes, &files);
    assert_eq!(typo.package, "com.example.ap");
    assert!(!typo.class_seen);
    assert!(!typo.package_seen);

    let bare = main_scan_base("App", &routes, &files);
    assert_eq!(bare.package, "");
    assert!(bare.class_seen);
}

#[test]
fn health_probe_needs_a_200_status_line() {
    assert!(health_ok("HTTP/1.1 200 OK\r\ncontent-length: 2\r\n\r\nok"));
    assert!(!health_ok("HTTP/1.1 404 Not Found\r\n"));
    assert!(!health_ok(""));
}

#[test]
fn installed_routes_follow_the_scan_bases() {
    let inside = r#"
package com.example.app.web;

@RestController
public class In {
    @GetMapping("/in")
    public String a() { return "in"; }
}
"#;
    let near = r#"
package com.example.application;

@RestController
public class Near {
    @GetMapping("/near")
    public String b() { return "near"; }
}
"#;
    let mut routes = analyze_source(inside).unwrap().routes;
    routes.extend(analyze_source(near).unwrap().routes);
    let all = routes_under(routes.clone(), &None);
    assert_eq!(all.len(), 2);
    let kept = routes_under(routes, &Some(vec!["com.example.app".to_string()]));
    assert_eq!(kept.len(), 1);
    assert_eq!(kept[0].path, "/in");
}
