use rustjvm::compiler::analyze_source;
use rustjvm::migrate::analyzer::{migration_readme, ProjectFile, SpringBootAnalyzer};
use rustjvm::migrate::converter::{
    convert_properties, convert_source, insert_import, lines, replace_all, replace_annotation,
};
use rustjvm::migrate::report::{Compat, Conversion, Finding, MigrationReport};

const SPRING_APP: &str = r#"
package com.example.demo;

import org.springframework.boot.autoconfigure.SpringBootApplication;
import org.springframework.web.bind.annotation.GetMapping;
import org.springframework.web.bind.annotation.RequestParam;
import org.springframework.web.bind.annotation.RestController;
import org.springframework.stereotype.Service;
import org.springframework.beans.factory.annotation.Autowired;

@SpringBootApplication
public class DemoApplication {
}

@RestController
class HelloController {

    @Autowired
    private HelloService helloService;

    @GetMapping("/hello")
    public String hello(@RequestParam String name) {
        return helloService.greet(name);
    }
}

@Service
class HelloService {
    public String greet(String name) {
        return "Hello, " + name + "!";
    }
}
"#;

const SPRING_POM: &str = r#"
<project>
  <dependencies>
    <dependency><artifactId>spring-boot-starter-web</artifactId></dependency>
    <dependency><artifactId>spring-boot-starter-data-jpa</artifactId></dependency>
    <dependency><artifactId>spring-boot-starter-security</artifactId></dependency>
  </dependencies>
</project>
"#;

const SPRING_PROPS: &str = "server.port=8081\n\
    spring.datasource.url=jdbc:postgresql://localhost:5432/mydb\n\
    spring.datasource.username=admin\n\
    spring.datasource.password=secret\n\
    logging.level.root=INFO\n\
    spring.main.lazy-initialization=true\n";


fn file(path: &str, contents: &str) -> ProjectFile {
    ProjectFile { path: path.to_string(), contents: contents.to_string() }
}

fn fixture_report() -> MigrationReport {
    SpringBootAnalyzer::analyze_files(
        &vec![file("src/main/java/com/example/demo/DemoApplication.java", SPRING_APP)],
        &vec![file("pom.xml", SPRING_POM)],
        Some(SPRING_PROPS),
    )
}

#[test]
fn analyzer_detects_spring_boot_app() {
    let report = fixture_report();

    // The headline conversion is detected.
    assert!(report
        .findings
        .iter()
        .any(|f| f.feature == "@SpringBootApplication" && f.compat == Compat::Compatible));

    // rustjvm.toml is generated from application.properties.
    let toml = report
        .generated
        .iter()
        .find(|g| g.path == "rustjvm.toml")
        .expect("rustjvm.toml generated");
    assert!(toml.contents.contains("port = 8081"));
    assert!(toml
        .contents
        .contains("url = \"postgresql://localhost:5432/mydb\""));

    // Dependency verdicts: web compatible, jpa partial, security unsupported.
    assert!(report
        .findings
        .iter()
        .any(|f| f.feature == "spring-boot-starter-web" && f.compat == Compat::Compatible));
    assert!(report
        .findings
        .iter()
        .any(|f| f.feature == "spring-boot-starter-data-jpa" && f.compat == Compat::Partial));
    assert!(report
        .findings
        .iter()
        .any(|f| f.feature == "spring-boot-starter-security" && f.compat == Compat::Unsupported));

    // Conversions are planned for the Java sources.
    assert!(report
        .conversions
        .iter()
        .any(|c| c.description.contains("@RustJVMApplication")));

    // The markdown report renders all three sections.
    let md = report.to_markdown();
    assert!(md.contains("Fully compatible"));
    assert!(md.contains("Needs attention"));
    assert!(md.contains("Unsupported"));
}

#[test]
fn converter_generates_valid_toml() {
    let toml = convert_properties(SPRING_PROPS);
    assert!(toml.contains("[server]"));
    assert!(toml.contains("port = 8081"));
    assert!(toml.contains("[database]"));
    assert!(toml.contains("url = \"postgresql://localhost:5432/mydb\""));
    assert!(toml.contains("username = \"admin\""));
    assert!(toml.contains("password = \"secret\""));
    assert!(toml.contains("level = \"info\""));
    // Unmapped keys are preserved as TODOs, never silently dropped.
    assert!(toml.contains("TODO(migrate): spring.main.lazy-initialization"));
}

#[test]
fn converter_rewrites_annotations_and_imports() {
    let converted = convert_source(SPRING_APP);
    assert!(converted.source.contains("import rustjvm.spring.RustJVMApplication;"));
    assert!(converted.source.contains("import rustjvm.spring.web.RestController;"));
    assert!(converted.source.contains("import rustjvm.spring.context.Service;"));
    assert!(converted.source.contains("import rustjvm.spring.context.Autowired;"));
    assert!(!converted.source.contains("org.springframework"));
    assert!(converted.changes.iter().any(|c| c.contains("@RustJVMApplication")));
}

#[test]
fn converted_source_compiles_to_a_runnable_app() {
    let converted = convert_source(SPRING_APP);
    assert!(converted.source.contains("@RustJVMApplication"));
    assert!(!converted.source.contains("org.springframework"));
    let analysis = analyze_source(&converted.source).unwrap();
    assert_eq!(analysis.routes.len(), 1);
    assert_eq!(analysis.routes[0].path, "/hello");
    assert!(analysis.beans.len() >= 2, "controller + service beans");
}

#[test]
fn migration_readme_lists_manual_steps() {
    let report = fixture_report();
    let readme = migration_readme(&report);
    assert!(readme.starts_with("# Migration to RustJVM\n\n## What was done automatically\n\n# RustJVM Migration Report"));
    assert!(readme.contains("Manual steps remaining"));
    assert!(readme.contains("- **spring-boot-starter-security**: "));
    assert!(readme.contains("- **spring-boot-starter-data-jpa**: "));
    assert!(readme.ends_with("```bash\nrustjvm run --src <this-directory>/src/main/java\n```\n"));
}

#[test]
fn clean_project_readme_says_so() {
    let report = MigrationReport::new();
    let readme = migration_readme(&report);
    assert!(readme.contains("None — this project converted cleanly.\n"));
}

#[test]
fn report_keeps_one_verdict_per_feature() {
    let mut report = MigrationReport::new();
    let finding = |loc: &str, compat: Compat| Finding {
        feature: "@Entity".to_string(),
        location: loc.to_string(),
        compat,
        note: "n".to_string(),
    };
    report.add_finding(finding("A.java", Compat::Partial));
    report.add_finding(finding("B.java", Compat::Partial));
    report.add_finding(finding("B.java", Compat::Unsupported));
    assert_eq!(report.findings.len(), 2);
    assert_eq!(report.findings[0].location, "A.java");
    assert_eq!(report.by_compat(Compat::Partial).len(), 1);
    assert_eq!(report.by_compat(Compat::Unsupported).len(), 1);
    assert_eq!(report.by_compat(Compat::Compatible).len(), 0);
}

#[test]
fn markdown_report_exact_text() {
    let mut report = MigrationReport::new();
    report.add_finding(Finding {
        feature: "@Service".to_string(),
        location: "S.java".to_string(),
        compat: Compat::Compatible,
        note: "ok".to_string(),
    });
    report.add_conversion(Conversion {
        file: "S.java".to_string(),
        description: "@Service (import a → b)".to_string(),
    });
    report.add_generated("rustjvm.toml".to_string(), "x".to_string());
    assert_eq!(
        report.to_markdown(),
        "# RustJVM Migration Report\n\n\
         ## Fully compatible (1)\n- ✅ `@Service` — ok _(in S.java)_\n\n\
         ## Needs attention (0)\n\n\
         ## Unsupported (0)\n\n\
         ## Automated conversions (1)\n- `S.java`: @Service (import a → b)\n\n\
         ## Generated files (1)\n- `rustjvm.toml`\n"
    );
}

#[test]
fn properties_convert_to_exact_toml() {
    let toml = convert_properties("server.port = 9000\n# comment\nspring.application.name=demo\nlogging.level.root=WARN\nfoo.bar=1\nnot a pair\n");
    assert_eq!(
        toml,
        "# Generated by rustjvm migrate convert\n\n\
         [server]\nport = 9000\n# application name: demo\n\n\
         [logging]\nlevel = \"warn\"\n\n\
         # --- Unmapped properties (review manually) ---\n# TODO(migrate): foo.bar = 1\n"
    );
}

#[test]
fn annotation_rename_respects_word_boundaries() {
    assert_eq!(
        replace_annotation("@Service @ServiceBus @Service_x @Service(", "Service", "Svc"),
        "@Svc @ServiceBus @Service_x @Svc("
    );
    assert_eq!(replace_annotation("no annotations", "Service", "Svc"), "no annotations");
}

#[test]
fn replace_all_is_non_overlapping_left_to_right() {
    assert_eq!(replace_all("aaaa", "aa", "b"), "bb");
    assert_eq!(replace_all("abcabc", "bc", "X"), "aXaX");
    assert_eq!(replace_all("abc", "z", "X"), "abc");
}

#[test]
fn import_goes_after_package_line() {
    assert_eq!(
        insert_import("package a.b;\nclass C {}\n", "x.Y"),
        "package a.b;\n\nimport x.Y;\nclass C {}\n"
    );
    assert_eq!(insert_import("class C {}", "x.Y"), "import x.Y;\nclass C {}");
}

#[test]
fn lines_split_like_str_lines() {
    let text = "a\r\nb\n\nc";
    let got: Vec<String> = lines(text).into_iter().map(|l| l.into_iter().collect()).collect();
    let want: Vec<String> = text.lines().map(|l| l.to_string()).collect();
    assert_eq!(got, want);
}

#[test]
fn colon_separated_properties_are_converted_too() {
    let toml = convert_properties("server.port: 8081\nmy.flag:on\n");
    assert!(toml.contains("[server]\nport = 8081\n"));
    assert!(toml.contains("# TODO(migrate): my.flag = on\n"));
}
