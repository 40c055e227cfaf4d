//! What a Spring Boot project holds, as a [`MigrationReport`], and the
//! migration README.
use vstd::prelude::*;
use crate::migrate::converter::{
    conversion_changes, convert_properties, convert_properties_spec, convert_source,
};
use crate::migrate::report::{
    Compat, Conversion, Finding, FindingM, MigrationReport, ReportM, of_compat, report_markdown,
    with_finding, findings_model,
};
use crate::text::{contains_seq, contains_str, copy_string, push_str, str_eq, string_of};

verus! {

/// Number of dependency-level rules.
pub const DEPENDENCY_RULE_COUNT: usize = 9;

/// Number of annotation-level rules.
pub const ANNOTATION_RULE_COUNT: usize = 20;

/// Dependency-level verdict `k`, matched against pom.xml / build.gradle text.
pub open spec fn dependency_rule(k: int) -> (Seq<char>, Compat, Seq<char>) {
    if k == 0 {
        (
            "spring-boot-starter-web"@,
            Compat::Compatible,
            "REST controllers map directly to RustJVM routes."@,
        )
    } else if k == 1 {
        (
            "spring-boot-starter-actuator"@,
            Compat::Compatible,
            "RustJVM exposes /health and /metrics out of the box."@,
        )
    } else if k == 2 {
        (
            "spring-boot-starter-validation"@,
            Compat::Compatible,
            "@RequestParam required/optional semantics are native."@,
        )
    } else if k == 3 {
        (
            "spring-boot-starter-data-jpa"@,
            Compat::Partial,
            "Spring Data repositories become RustJVM native DB calls (Phase 2 DB pool). Entities and derived queries need manual porting."@,
        )
    } else if k == 4 {
        (
            "spring-boot-starter-test"@,
            Compat::Partial,
            "JUnit tests run via `rustjvm:test`, but Spring test slices (@WebMvcTest, @DataJpaTest) need rewriting."@,
        )
    } else if k == 5 {
        (
            "spring-ai"@,
            Compat::Partial,
            "RustJVM Phase 3 provides ChatClient/VectorStore natively — expect a lighter, faster equivalent."@,
        )
    } else if k == 6 {
        (
            "spring-boot-starter-security"@,
            Compat::Unsupported,
            "Use RustJVM middleware or an external auth proxy (e.g. oauth2-proxy)."@,
        )
    } else if k == 7 {
        (
            "spring-boot-starter-batch"@,
            Compat::Unsupported,
            "No batch framework yet — extract jobs into scheduled RustJVM tasks or keep them on Spring Batch in a sidecar."@,
        )
    } else {
        (
            "projectlombok"@,
            Compat::Unsupported,
            "No annotation processing — use Java records and explicit constructors."@,
        )
    }
}

fn dependency_rule_exec(k: usize) -> (r: (&'static str, Compat, &'static str))
    requires
        k < DEPENDENCY_RULE_COUNT,
    ensures
        (r.0@, r.1, r.2@) == dependency_rule(k as int),
{
    if k == 0 {
        (
            "spring-boot-starter-web",
            Compat::Compatible,
            "REST controllers map directly to RustJVM routes.",
        )
    } else if k == 1 {
        (
            "spring-boot-starter-actuator",
            Compat::Compatible,
            "RustJVM exposes /health and /metrics out of the box.",
        )
    } else if k == 2 {
        (
            "spring-boot-starter-validation",
            Compat::Compatible,
            "@RequestParam required/optional semantics are native.",
        )
    } else if k == 3 {
        (
            "spring-boot-starter-data-jpa",
            Compat::Partial,
            "Spring Data repositories become RustJVM native DB calls (Phase 2 DB pool). Entities and derived queries need manual porting.",
        )
    } else if k == 4 {
        (
            "spring-boot-starter-test",
            Compat::Partial,
            "JUnit tests run via `rustjvm:test`, but Spring test slices (@WebMvcTest, @DataJpaTest) need rewriting.",
        )
    } else if k == 5 {
        (
            "spring-ai",
            Compat::Partial,
            "RustJVM Phase 3 provides ChatClient/VectorStore natively — expect a lighter, faster equivalent.",
        )
    } else if k == 6 {
        (
            "spring-boot-starter-security",
            Compat::Unsupported,
            "Use RustJVM middleware or an external auth proxy (e.g. oauth2-proxy).",
        )
    } else if k == 7 {
        (
            "spring-boot-starter-batch",
            Compat::Unsupported,
            "No batch framework yet — extract jobs into scheduled RustJVM tasks or keep them on Spring Batch in a sidecar.",
        )
    } else {
        (
            "projectlombok",
            Compat::Unsupported,
            "No annotation processing — use Java records and explicit constructors.",
        )
    }
}

/// Annotation-level verdict `k`, matched against Java source text.
pub open spec fn annotation_rule(k: int) -> (Seq<char>, Compat, Seq<char>) {
    if k == 0 {
        ("@SpringBootApplication"@, Compat::Compatible, "→ @RustJVMApplication"@)
    } else if k == 1 {
        ("@RestController"@, Compat::Compatible, "→ rustjvm.spring.web.RestController"@)
    } else if k == 2 {
        ("@GetMapping"@, Compat::Compatible, "mapped as-is"@)
    } else if k == 3 {
        ("@PostMapping"@, Compat::Compatible, "mapped as-is"@)
    } else if k == 4 {
        ("@PutMapping"@, Compat::Compatible, "mapped as-is"@)
    } else if k == 5 {
        ("@DeleteMapping"@, Compat::Compatible, "mapped as-is"@)
    } else if k == 6 {
        ("@RequestMapping"@, Compat::Compatible, "mapped as-is"@)
    } else if k == 7 {
        ("@RequestParam"@, Compat::Compatible, "mapped as-is"@)
    } else if k == 8 {
        ("@Service"@, Compat::Compatible, "→ rustjvm.spring.context.Service"@)
    } else if k == 9 {
        ("@Component"@, Compat::Compatible, "→ rustjvm.spring.context.Component"@)
    } else if k == 10 {
        ("@Autowired"@, Compat::Compatible, "→ rustjvm.spring.context.Autowired"@)
    } else if k == 11 {
        ("@Configuration"@, Compat::Compatible, "mapped as-is"@)
    } else if k == 12 {
        ("@Bean"@, Compat::Compatible, "mapped as-is"@)
    } else if k == 13 {
        ("@ComponentScan"@, Compat::Compatible, "mapped as-is"@)
    } else if k == 14 {
        ("@Scope"@, Compat::Compatible, "singleton/prototype/request supported"@)
    } else if k == 15 {
        (
            "@RequestBody"@,
            Compat::Partial,
            "JSON body mapping lands in Phase 2 remainder — bind query params for now."@,
        )
    } else if k == 16 {
        (
            "@PathVariable"@,
            Compat::Partial,
            "Path templates land with JSON body support — use @RequestParam meanwhile."@,
        )
    } else if k == 17 {
        (
            "@Transactional"@,
            Compat::Partial,
            "Transactions arrive with the native DB pool — demarcate manually for now."@,
        )
    } else if k == 18 {
        (
            "@Scheduled"@,
            Compat::Unsupported,
            "No scheduler yet — trigger via an external cron hitting an endpoint."@,
        )
    } else {
        ("@Entity"@, Compat::Partial, "JPA entities port to plain records + native DB queries."@)
    }
}

fn annotation_rule_exec(k: usize) -> (r: (&'static str, Compat, &'static str))
    requires
        k < ANNOTATION_RULE_COUNT,
    ensures
        (r.0@, r.1, r.2@) == annotation_rule(k as int),
{
    if k == 0 {
        ("@SpringBootApplication", Compat::Compatible, "→ @RustJVMApplication")
    } else if k == 1 {
        ("@RestController", Compat::Compatible, "→ rustjvm.spring.web.RestController")
    } else if k == 2 {
        ("@GetMapping", Compat::Compatible, "mapped as-is")
    } else if k == 3 {
        ("@PostMapping", Compat::Compatible, "mapped as-is")
    } else if k == 4 {
        ("@PutMapping", Compat::Compatible, "mapped as-is")
    } else if k == 5 {
        ("@DeleteMapping", Compat::Compatible, "mapped as-is")
    } else if k == 6 {
        ("@RequestMapping", Compat::Compatible, "mapped as-is")
    } else if k == 7 {
        ("@RequestParam", Compat::Compatible, "mapped as-is")
    } else if k == 8 {
        ("@Service", Compat::Compatible, "→ rustjvm.spring.context.Service")
    } else if k == 9 {
        ("@Component", Compat::Compatible, "→ rustjvm.spring.context.Component")
    } else if k == 10 {
        ("@Autowired", Compat::Compatible, "→ rustjvm.spring.context.Autowired")
    } else if k == 11 {
        ("@Configuration", Compat::Compatible, "mapped as-is")
    } else if k == 12 {
        ("@Bean", Compat::Compatible, "mapped as-is")
    } else if k == 13 {
        ("@ComponentScan", Compat::Compatible, "mapped as-is")
    } else if k == 14 {
        ("@Scope", Compat::Compatible, "singleton/prototype/request supported")
    } else if k == 15 {
        (
            "@RequestBody",
            Compat::Partial,
            "JSON body mapping lands in Phase 2 remainder — bind query params for now.",
        )
    } else if k == 16 {
        (
            "@PathVariable",
            Compat::Partial,
            "Path templates land with JSON body support — use @RequestParam meanwhile.",
        )
    } else if k == 17 {
        (
            "@Transactional",
            Compat::Partial,
            "Transactions arrive with the native DB pool — demarcate manually for now.",
        )
    } else if k == 18 {
        (
            "@Scheduled",
            Compat::Unsupported,
            "No scheduler yet — trigger via an external cron hitting an endpoint.",
        )
    } else {
        ("@Entity", Compat::Partial, "JPA entities port to plain records + native DB queries.")
    }
}

/// A file of the project: its path relative to the project root, and its
/// text.
pub struct ProjectFile {
    pub path: String,
    pub contents: String,
}

pub open spec fn files_model(fs: Seq<ProjectFile>) -> Seq<(Seq<char>, Seq<char>)> {
    fs.map_values(|f: ProjectFile| (f.path@, f.contents@))
}

/// The findings after the first `n` rules of one kind were matched against
/// the text of the file at `path`.
pub open spec fn rule_findings(
    fs: Seq<FindingM>,
    path: Seq<char>,
    text: Seq<char>,
    dependency: bool,
    n: nat,
) -> Seq<FindingM>
    decreases n,
{
    if n == 0 {
        fs
    } else {
        let prev = rule_findings(fs, path, text, dependency, (n - 1) as nat);
        let (token, compat, note) = if dependency {
            dependency_rule(n - 1)
        } else {
            annotation_rule(n - 1)
        };
        if contains_seq(text, token) {
            with_finding(
                prev,
                FindingM { feature: token, location: path, compat, note },
            )
        } else {
            prev
        }
    }
}

pub open spec fn rule_count(dependency: bool) -> nat {
    if dependency {
        DEPENDENCY_RULE_COUNT as nat
    } else {
        ANNOTATION_RULE_COUNT as nat
    }
}

/// The conversions planned for the Java source `src` at `path`.
pub open spec fn planned_conversions(path: Seq<char>, src: Seq<char>) -> Seq<
    (Seq<char>, Seq<char>),
> {
    conversion_changes(src).map_values(|c: Seq<char>| (path, c))
}

/// The report after one Java source was looked at.
pub open spec fn java_step(r: ReportM, path: Seq<char>, src: Seq<char>) -> ReportM {
    ReportM {
        findings: rule_findings(r.findings, path, src, false, rule_count(false)),
        conversions: r.conversions + planned_conversions(path, src),
        generated: r.generated,
    }
}

pub open spec fn java_steps(r: ReportM, files: Seq<(Seq<char>, Seq<char>)>) -> ReportM
    decreases files.len(),
{
    if files.len() == 0 {
        r
    } else {
        java_step(java_steps(r, files.drop_last()), files.last().0, files.last().1)
    }
}

/// The report after one build file was looked at.
pub open spec fn build_step(r: ReportM, path: Seq<char>, text: Seq<char>) -> ReportM {
    ReportM { findings: rule_findings(r.findings, path, text, true, rule_count(true)), ..r }
}

pub open spec fn build_steps(r: ReportM, files: Seq<(Seq<char>, Seq<char>)>) -> ReportM
    decreases files.len(),
{
    if files.len() == 0 {
        r
    } else {
        build_step(build_steps(r, files.drop_last()), files.last().0, files.last().1)
    }
}

pub open spec fn empty_report() -> ReportM {
    ReportM { findings: Seq::empty(), conversions: Seq::empty(), generated: Seq::empty() }
}

/// The report for a project with these Java sources, build files and
/// `application.properties` text.
pub open spec fn analysis_report(
    java: Seq<(Seq<char>, Seq<char>)>,
    builds: Seq<(Seq<char>, Seq<char>)>,
    properties: Option<Seq<char>>,
) -> ReportM {
    let r = build_steps(java_steps(empty_report(), java), builds);
    match properties {
        Some(p) => ReportM {
            generated: r.generated.push(("rustjvm.toml"@, convert_properties_spec(p))),
            ..r
        },
        None => r,
    }
}

fn add_rule_findings(report: &mut MigrationReport, path: &str, text: &str, dependency: bool)
    ensures
        final(report).model() == (ReportM {
            findings: rule_findings(
                old(report).model().findings,
                path@,
                text@,
                dependency,
                rule_count(dependency),
            ),
            ..old(report).model()
        }),
{
    let ghost r0 = report.model();
    let n: usize = if dependency {
        DEPENDENCY_RULE_COUNT
    } else {
        ANNOTATION_RULE_COUNT
    };
    let mut k: usize = 0;
    while k < n
        invariant
            k <= n,
            n == rule_count(dependency),
            report.model() == (ReportM {
                findings: rule_findings(r0.findings, path@, text@, dependency, k as nat),
                ..r0
            }),
        decreases n - k,
    {
        let (token, compat, note) = if dependency {
            dependency_rule_exec(k)
        } else {
            annotation_rule_exec(k)
        };
        if contains_str(text, token) {
            let f = Finding {
                feature: string_of(token),
                location: string_of(path),
                compat,
                note: string_of(note),
            };
            report.add_finding(f);
            assert(report.model().conversions == r0.conversions);
            assert(report.model().generated == r0.generated);
        }
        k = k + 1;
    }
}

fn add_planned_conversions(report: &mut MigrationReport, path: &str, src: &str)
    ensures
        final(report).model() == (ReportM {
            conversions: old(report).model().conversions + planned_conversions(path@, src@),
            ..old(report).model()
        }),
{
    let ghost r0 = report.model();
    let conv = convert_source(src);
    let ghost cm = conv.changes.deep_view();
    let ghost pc = planned_conversions(path@, src@);
    let mut j: usize = 0;
    assert(r0.conversions + pc.take(0) =~= r0.conversions);
    while j < conv.changes.len()
        invariant
            j <= conv.changes@.len(),
            cm == conv.changes.deep_view(),
            cm == conversion_changes(src@),
            pc == planned_conversions(path@, src@),
            report.model() == (ReportM { conversions: r0.conversions + pc.take(j as int), ..r0 }),
        decreases conv.changes.len() - j,
    {
        let ghost c0 = report.model().conversions;
        report.add_conversion(
            Conversion { file: string_of(path), description: copy_string(&conv.changes[j]) },
        );
        assert(report.model().conversions =~= c0.push((path@, cm[j as int])));
        assert(r0.conversions + pc.take(j + 1) =~= (r0.conversions + pc.take(j as int)).push(
            (path@, cm[j as int]),
        ));
        assert(report.model().findings == r0.findings);
        j = j + 1;
    }
    assert(pc.take(pc.len() as int) =~= pc);
}

/// Analyzes a Spring Boot project.
pub struct SpringBootAnalyzer;

impl SpringBootAnalyzer {
    /// The report for a project, from the text of its files: its Java
    /// sources, its build files (pom.xml, build.gradle, build.gradle.kts, as
    /// far as they exist) and its `application.properties`, if it has one.
    /// The report includes the generated `rustjvm.toml` preview.
    pub fn analyze_files(
        java: &Vec<ProjectFile>,
        builds: &Vec<ProjectFile>,
        properties: Option<&str>,
    ) -> (r: MigrationReport)
        ensures
            r.model() == analysis_report(
                files_model(java@),
                files_model(builds@),
                match properties {
                    Some(p) => Some(p@),
                    None => None,
                },
            ),
    {
        let mut report = MigrationReport::new();
        let ghost jm = files_model(java@);
        let ghost bm = files_model(builds@);
        proof {
            assert(report.model().findings =~= Seq::<FindingM>::empty());
            assert(report.model().conversions =~= Seq::<(Seq<char>, Seq<char>)>::empty());
            assert(report.model().generated =~= Seq::<(Seq<char>, Seq<char>)>::empty());
            assert(jm.take(0) =~= Seq::<(Seq<char>, Seq<char>)>::empty());
        }
        let mut i: usize = 0;
        while i < java.len()
            invariant
                i <= java@.len(),
                jm == files_model(java@),
                report.model() == java_steps(empty_report(), jm.take(i as int)),
            decreases java.len() - i,
        {
            let f = &java[i];
            add_rule_findings(&mut report, f.path.as_str(), f.contents.as_str(), false);
            add_planned_conversions(&mut report, f.path.as_str(), f.contents.as_str());
            assert(jm.take(i + 1).drop_last() =~= jm.take(i as int));
            i = i + 1;
        }
        assert(jm.take(jm.len() as int) =~= jm);
        let ghost after_java = report.model();
        assert(bm.take(0) =~= Seq::<(Seq<char>, Seq<char>)>::empty());
        let mut b: usize = 0;
        while b < builds.len()
            invariant
                b <= builds@.len(),
                bm == files_model(builds@),
                report.model() == build_steps(after_java, bm.take(b as int)),
            decreases builds.len() - b,
        {
            let f = &builds[b];
            add_rule_findings(&mut report, f.path.as_str(), f.contents.as_str(), true);
            assert(bm.take(b + 1).drop_last() =~= bm.take(b as int));
            b = b + 1;
        }
        assert(bm.take(bm.len() as int) =~= bm);
        match properties {
            Some(p) => {
                report.add_generated(string_of("rustjvm.toml"), convert_properties(p));
            },
            None => {},
        }
        report
    }
}

/// The manual-steps bullets of the migration README.
pub open spec fn manual_lines(fs: Seq<FindingM>) -> Seq<char>
    decreases fs.len(),
{
    if fs.len() == 0 {
        Seq::empty()
    } else {
        manual_lines(fs.drop_last()) + "- **"@ + fs.last().feature + "**: "@ + fs.last().note
            + "\n"@
    }
}

/// The findings that need manual work: partial ones, then unsupported ones.
pub open spec fn manual_findings(fs: Seq<FindingM>) -> Seq<FindingM> {
    of_compat(fs, Compat::Partial) + of_compat(fs, Compat::Unsupported)
}

/// The README-MIGRATION.md text for a report.
pub open spec fn readme_text(r: ReportM) -> Seq<char> {
    let manual = manual_findings(r.findings);
    "# Migration to RustJVM\n\n"@ + "## What was done automatically\n\n"@ + report_markdown(r)
        + "\n## Manual steps remaining\n\n"@ + (if manual.len() == 0 {
        "None — this project converted cleanly.\n"@
    } else {
        manual_lines(manual)
    }) + "\n## Run it\n\n```bash\nrustjvm run --src <this-directory>/src/main/java\n```\n"@
}

fn push_manual(out: &mut String, fs: &Vec<Finding>)
    ensures
        final(out)@ == old(out)@ + manual_lines(findings_model(fs@)),
{
    let ghost fm = findings_model(fs@);
    let ghost o = out@;
    let mut i: usize = 0;
    assert(fm.take(0) =~= Seq::<FindingM>::empty());
    assert(o + manual_lines(fm.take(0)) =~= o);
    while i < fs.len()
        invariant
            i <= fs@.len(),
            fm == findings_model(fs@),
            out@ == o + manual_lines(fm.take(i as int)),
        decreases fs.len() - i,
    {
        push_str(out, "- **");
        push_str(out, fs[i].feature.as_str());
        push_str(out, "**: ");
        push_str(out, fs[i].note.as_str());
        push_str(out, "\n");
        assert(fm.take(i + 1).drop_last() =~= fm.take(i as int));
        assert(fm.take(i + 1).last() == fs@[i as int].model());
        assert(out@ =~= o + manual_lines(fm.take(i + 1)));
        i = i + 1;
    }
    assert(fm.take(fm.len() as int) =~= fm);
}

proof fn lemma_manual_lines_concat(a: Seq<FindingM>, b: Seq<FindingM>)
    ensures
        manual_lines(a + b) == manual_lines(a) + manual_lines(b),
    decreases b.len(),
{
    if b.len() == 0 {
        assert(a + b =~= a);
        assert(manual_lines(a) + Seq::<char>::empty() =~= manual_lines(a));
    } else {
        assert((a + b).drop_last() =~= a + b.drop_last());
        lemma_manual_lines_concat(a, b.drop_last());
        assert((a + b).last() == b.last());
        assert(manual_lines(a + b) =~= manual_lines(a) + manual_lines(b));
    }
}

/// The README-MIGRATION.md text: the report, the manual steps left, and
/// how to run the result.
pub fn migration_readme(report: &MigrationReport) -> (r: String)
    ensures
        r@ == readme_text(report.model()),
{
    let mut out = string_of("# Migration to RustJVM\n\n");
    push_str(&mut out, "## What was done automatically\n\n");
    let md = report.to_markdown();
    push_str(&mut out, md.as_str());
    push_str(&mut out, "\n## Manual steps remaining\n\n");
    let partial = report.by_compat(Compat::Partial);
    let unsupported = report.by_compat(Compat::Unsupported);
    push_manual(&mut out, &partial);
    push_manual(&mut out, &unsupported);
    proof {
        lemma_manual_lines_concat(
            of_compat(report.model().findings, Compat::Partial),
            of_compat(report.model().findings, Compat::Unsupported),
        );
    }
    if partial.len() == 0 && unsupported.len() == 0 {
        push_str(&mut out, "None — this project converted cleanly.\n");
        proof {
            assert(findings_model(partial@).len() == 0);
            assert(findings_model(unsupported@).len() == 0);
            assert(manual_lines(Seq::<FindingM>::empty()) == Seq::<char>::empty());
        }
    }
    push_str(&mut out, "\n## Run it\n\n```bash\nrustjvm run --src <this-directory>/src/main/java\n```\n");
    proof {
        let manual = manual_findings(report.model().findings);
        assert(manual.len() == partial@.len() + unsupported@.len());
        assert(out@ =~= readme_text(report.model()));
    }
    out
}

/// Directories a project walk skips: build output and VCS directories.
pub open spec fn skipped_dir(name: Seq<char>) -> bool {
    name == "target"@ || name == "build"@ || name == ".git"@ || name == ".idea"@ || name
        == "node_modules"@
}

pub fn is_skipped_dir(name: &str) -> (r: bool)
    ensures
        r == skipped_dir(name@),
{
    str_eq(name, "target") || str_eq(name, "build") || str_eq(name, ".git") || str_eq(
        name,
        ".idea",
    ) || str_eq(name, "node_modules")
}

} // verus!
