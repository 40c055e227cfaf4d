//! The command-line front's own rules: package names, the project
//! scaffold, the `--main` scan base, the port setting, the route listing.
use vstd::prelude::*;
use crate::compiler::ast::push_dv;
use crate::compiler::ast::ClassDecl;
use crate::compiler::compile::{
    text_lt, text_lt_exec, under_scan_bases, under_scan_bases_spec, BeanSpec, CompiledRoute, RouteM,
};
use crate::migrate::converter::{last_dot_before, lemma_last_dot_range, replace_all, replaced};
use crate::text::{
    chars_of, is_prefix, new_string, push_char, push_str, starts_with_chars, str_eq, string_of,
    string_of_range,
};

verus! {

/// A character allowed in a Java package name here.
pub open spec fn package_char(c: char) -> bool {
    ('a' <= c && c <= 'z') || ('A' <= c && c <= 'Z') || ('0' <= c && c <= '9') || c == '.' || c
        == '_'
}

/// A Java package name: ASCII letters, digits, `_` and dots, with no empty
/// dot-separated segment.
pub open spec fn valid_package(p: Seq<char>) -> bool {
    &&& forall|i: int| 0 <= i < p.len() ==> package_char(#[trigger] p[i])
    &&& p.len() > 0
    &&& p[0] != '.'
    &&& p.last() != '.'
    &&& forall|i: int| 0 <= i < p.len() - 1 ==> !(#[trigger] p[i] == '.' && p[i + 1] == '.')
}

pub fn valid_package_name(package: &str) -> (r: bool)
    ensures
        r == valid_package(package@),
{
    let cs = chars_of(package);
    let n = cs.len();
    if n == 0 {
        return false;
    }
    let mut i: usize = 0;
    while i < n
        invariant
            i <= n,
            n == cs@.len(),
            cs@ == package@,
            forall|j: int| 0 <= j < i ==> package_char(#[trigger] cs@[j]),
            forall|j: int| 0 <= j < i && j < n - 1 ==> !(#[trigger] cs@[j] == '.' && cs@[j + 1] == '.'),
        decreases n - i,
    {
        let c = cs[i];
        let ok = (c >= 'a' && c <= 'z') || (c >= 'A' && c <= 'Z') || (c >= '0' && c <= '9') || c
            == '.' || c == '_';
        if !ok {
            assert(!package_char(cs@[i as int]));
            return false;
        }
        if c == '.' && i + 1 < n && cs[i + 1] == '.' {
            return false;
        }
        i = i + 1;
    }
    cs[0] != '.' && cs[n - 1] != '.'
}

/// Number of files a new project is scaffolded with.
pub const SCAFFOLD_FILE_COUNT: usize = 6;

/// Scaffold file `k`: its path in the project and its template, where
/// `{package}` stands for the project's package.
pub open spec fn scaffold_template(k: int) -> (Seq<char>, Seq<char>) {
    if k == 0 {
        ("src/HelloService.java"@, "package {package};\n\nimport rustjvm.spring.context.Service;\n\n@Service\npublic class HelloService {\n    public String greet(String name) {\n        return \"Hello, \" + name + \"!\";\n    }\n}\n"@)
    } else if k == 1 {
        ("src/HelloController.java"@, "package {package};\n\nimport rustjvm.spring.context.Autowired;\nimport rustjvm.spring.web.GetMapping;\nimport rustjvm.spring.web.RequestParam;\nimport rustjvm.spring.web.RestController;\n\n@RestController\npublic class HelloController {\n\n    @Autowired\n    private HelloService helloService;\n\n    @GetMapping(\"/hello\")\n    public String hello(@RequestParam String name) {\n        return helloService.greet(name);\n    }\n}\n"@)
    } else if k == 2 {
        ("src/App.java"@, "package {package};\n\nimport rustjvm.RustJVMBootstrap;\nimport rustjvm.spring.RustJVMApplication;\n\n@RustJVMApplication\npublic class App {\n    public static void main(String[] args) {\n        System.exit(RustJVMBootstrap.run(App.class, args));\n    }\n}\n"@)
    } else if k == 3 {
        ("rustjvm.toml"@, "[server]\nport = 8080\n\n[reload]\nwatch = true\n\n[logging]\nlevel = \"info\"\n"@)
    } else if k == 4 {
        ("pom.xml"@, "<?xml version=\"1.0\" encoding=\"UTF-8\"?>\n<project xmlns=\"http://maven.apache.org/POM/4.0.0\"\n         xmlns:xsi=\"http://www.w3.org/2001/XMLSchema-instance\"\n         xsi:schemaLocation=\"http://maven.apache.org/POM/4.0.0\n                             http://maven.apache.org/xsd/maven-4.0.0.xsd\">\n    <modelVersion>4.0.0</modelVersion>\n\n    <groupId>{package}</groupId>\n    <artifactId>app</artifactId>\n    <version>0.1.0-SNAPSHOT</version>\n    <packaging>jar</packaging>\n\n    <properties>\n        <maven.compiler.release>21</maven.compiler.release>\n        <project.build.sourceEncoding>UTF-8</project.build.sourceEncoding>\n    </properties>\n\n    <dependencies>\n        <!-- Compile-time only: the Rust runtime provides the implementations. -->\n        <dependency>\n            <groupId>io.rustjvm</groupId>\n            <artifactId>rustjvm-spring-api</artifactId>\n            <version>0.1.0-alpha</version>\n        </dependency>\n    </dependencies>\n</project>\n"@)
    } else {
        ("README.md"@, "# {package}\n\nScaffolded by `rustjvm new`.\n\n```bash\nrustjvm run --src src --port 8080\ncurl \"http://127.0.0.1:8080/hello?name=world\"\n```\n\nTo compile against the API in your IDE, install the Java API JAR once:\n`mvn -f <rustjvm-repo>/rustjvm-spring-api/pom.xml clean install`, then\n`mvn -f pom.xml compile` here.\n"@)
    }
}

fn scaffold_template_exec(k: usize) -> (r: (&'static str, &'static str))
    requires
        k < SCAFFOLD_FILE_COUNT,
    ensures
        (r.0@, r.1@) == scaffold_template(k as int),
{
    if k == 0 {
        ("src/HelloService.java", "package {package};\n\nimport rustjvm.spring.context.Service;\n\n@Service\npublic class HelloService {\n    public String greet(String name) {\n        return \"Hello, \" + name + \"!\";\n    }\n}\n")
    } else if k == 1 {
        ("src/HelloController.java", "package {package};\n\nimport rustjvm.spring.context.Autowired;\nimport rustjvm.spring.web.GetMapping;\nimport rustjvm.spring.web.RequestParam;\nimport rustjvm.spring.web.RestController;\n\n@RestController\npublic class HelloController {\n\n    @Autowired\n    private HelloService helloService;\n\n    @GetMapping(\"/hello\")\n    public String hello(@RequestParam String name) {\n        return helloService.greet(name);\n    }\n}\n")
    } else if k == 2 {
        ("src/App.java", "package {package};\n\nimport rustjvm.RustJVMBootstrap;\nimport rustjvm.spring.RustJVMApplication;\n\n@RustJVMApplication\npublic class App {\n    public static void main(String[] args) {\n        System.exit(RustJVMBootstrap.run(App.class, args));\n    }\n}\n")
    } else if k == 3 {
        ("rustjvm.toml", "[server]\nport = 8080\n\n[reload]\nwatch = true\n\n[logging]\nlevel = \"info\"\n")
    } else if k == 4 {
        ("pom.xml", "<?xml version=\"1.0\" encoding=\"UTF-8\"?>\n<project xmlns=\"http://maven.apache.org/POM/4.0.0\"\n         xmlns:xsi=\"http://www.w3.org/2001/XMLSchema-instance\"\n         xsi:schemaLocation=\"http://maven.apache.org/POM/4.0.0\n                             http://maven.apache.org/xsd/maven-4.0.0.xsd\">\n    <modelVersion>4.0.0</modelVersion>\n\n    <groupId>{package}</groupId>\n    <artifactId>app</artifactId>\n    <version>0.1.0-SNAPSHOT</version>\n    <packaging>jar</packaging>\n\n    <properties>\n        <maven.compiler.release>21</maven.compiler.release>\n        <project.build.sourceEncoding>UTF-8</project.build.sourceEncoding>\n    </properties>\n\n    <dependencies>\n        <!-- Compile-time only: the Rust runtime provides the implementations. -->\n        <dependency>\n            <groupId>io.rustjvm</groupId>\n            <artifactId>rustjvm-spring-api</artifactId>\n            <version>0.1.0-alpha</version>\n        </dependency>\n    </dependencies>\n</project>\n")
    } else {
        ("README.md", "# {package}\n\nScaffolded by `rustjvm new`.\n\n```bash\nrustjvm run --src src --port 8080\ncurl \"http://127.0.0.1:8080/hello?name=world\"\n```\n\nTo compile against the API in your IDE, install the Java API JAR once:\n`mvn -f <rustjvm-repo>/rustjvm-spring-api/pom.xml clean install`, then\n`mvn -f pom.xml compile` here.\n")
    }
}

/// A file of a new project.
pub struct ScaffoldFile {
    pub path: String,
    pub contents: String,
}

/// The files of a new project for `package`: Java sources, a consumer
/// pom.xml, a rustjvm.toml and a README, each template with the package
/// filled in.
pub fn scaffold_files(package: &str) -> (r: Vec<ScaffoldFile>)
    ensures
        r@.len() == SCAFFOLD_FILE_COUNT,
        forall|k: int| 0 <= k < SCAFFOLD_FILE_COUNT ==> (#[trigger] r@[k]).path@ == scaffold_template(k).0
            && r@[k].contents@ == replaced(scaffold_template(k).1, "{package}"@, package@),
{
    let mut out: Vec<ScaffoldFile> = Vec::new();
    let mut k: usize = 0;
    proof {
        reveal_strlit("{package}");
    }
    while k < SCAFFOLD_FILE_COUNT
        invariant
            k <= SCAFFOLD_FILE_COUNT,
            out@.len() == k,
            "{package}"@.len() > 0,
            forall|j: int| 0 <= j < k ==> (#[trigger] out@[j]).path@ == scaffold_template(j).0
                && out@[j].contents@ == replaced(scaffold_template(j).1, "{package}"@, package@),
        decreases SCAFFOLD_FILE_COUNT - k,
    {
        let (path, template) = scaffold_template_exec(k);
        let contents = replace_all(template, "{package}", package);
        out.push(ScaffoldFile { path: string_of(path), contents });
        k = k + 1;
    }
    out
}

// ---------------------------------------------------------------------------
// The --main application class
// ---------------------------------------------------------------------------

/// A fully-qualified class name split at its last `.`: the package and the
/// simple name (no dot: no package).
pub open spec fn class_parts(fqcn: Seq<char>) -> (Seq<char>, Seq<char>) {
    let d = last_dot_before(fqcn, fqcn.len() as int);
    if d < 0 {
        (Seq::empty(), fqcn)
    } else {
        (fqcn.take(d), fqcn.skip(d + 1))
    }
}

/// The component-scan base a `--main` class gives, and whether the scanned
/// tree has that class and anything in that package (the front warns when
/// not: a typo'd main class must not be a silent empty server).
pub struct MainScan {
    pub package: String,
    pub class_seen: bool,
    pub package_seen: bool,
}

pub open spec fn class_in_files(files: Seq<(Vec<BeanSpec>, Vec<ClassDecl>)>, name: Seq<char>) -> bool {
    exists|f: int, c: int| 0 <= f < files.len() && 0 <= c < files[f].1@.len() && #[trigger] files[f].1@[c].name@ == name
}

pub open spec fn package_in_scan(
    routes: Seq<CompiledRoute>,
    files: Seq<(Vec<BeanSpec>, Vec<ClassDecl>)>,
    package: Seq<char>,
) -> bool {
    ||| exists|r: int| 0 <= r < routes.len() && (#[trigger] routes[r]).package.deep_view() == Some(package)
    ||| exists|f: int, b: int| 0 <= f < files.len() && 0 <= b < files[f].0@.len()
        && (#[trigger] files[f].0@[b]).package.deep_view() == Some(package)
}

fn split_class(fqcn: &str) -> (r: (String, String))
    ensures
        (r.0@, r.1@) == class_parts(fqcn@),
{
    let cs = chars_of(fqcn);
    let mut i: usize = cs.len();
    while i > 0 && cs[i - 1] != '.'
        invariant
            i <= cs@.len(),
            cs@ == fqcn@,
            last_dot_before(fqcn@, fqcn@.len() as int) == last_dot_before(fqcn@, i as int),
        decreases i,
    {
        i = i - 1;
    }
    proof {
        lemma_last_dot_range(fqcn@, i as int);
    }
    if i == 0 {
        (new_string(), string_of(fqcn))
    } else {
        (string_of_range(&cs, 0, i - 1), string_of_range(&cs, i, cs.len()))
    }
}

fn has_class(classes: &Vec<ClassDecl>, name: &str) -> (r: bool)
    ensures
        r == exists|c: int| 0 <= c < classes@.len() && #[trigger] classes@[c].name@ == name@,
{
    let mut c: usize = 0;
    while c < classes.len()
        invariant
            c <= classes@.len(),
            forall|k: int| 0 <= k < c ==> #[trigger] classes@[k].name@ != name@,
        decreases classes.len() - c,
    {
        if str_eq(classes[c].name.as_str(), name) {
            return true;
        }
        c = c + 1;
    }
    false
}

fn has_package(package: &Option<String>, name: &str) -> (r: bool)
    ensures
        r == (package.deep_view() == Some(name@)),
{
    match package {
        Some(p) => str_eq(p.as_str(), name),
        None => false,
    }
}

fn class_seen_in(files: &[(Vec<BeanSpec>, Vec<ClassDecl>)], name: &str) -> (r: bool)
    ensures
        r == class_in_files(files@, name@),
{
    let mut f: usize = 0;
    while f < files.len()
        invariant
            f <= files@.len(),
            forall|g: int, c: int| 0 <= g < f && 0 <= c < files@[g].1@.len() ==> #[trigger] files@[g].1@[c].name@ != name@,
        decreases files.len() - f,
    {
        if has_class(&files[f].1, name) {
            return true;
        }
        f = f + 1;
    }
    false
}

fn package_seen_in(routes: &[CompiledRoute], files: &[(Vec<BeanSpec>, Vec<ClassDecl>)], name: &str) -> (r: bool)
    ensures
        r == package_in_scan(routes@, files@, name@),
{
    let mut i: usize = 0;
    while i < routes.len()
        invariant
            i <= routes@.len(),
            forall|k: int| 0 <= k < i ==> (#[trigger] routes@[k]).package.deep_view() != Some(name@),
        decreases routes.len() - i,
    {
        if has_package(&routes[i].package, name) {
            return true;
        }
        i = i + 1;
    }
    let mut f: usize = 0;
    while f < files.len()
        invariant
            f <= files@.len(),
            forall|k: int| 0 <= k < routes@.len() ==> (#[trigger] routes@[k]).package.deep_view() != Some(name@),
            forall|g: int, b: int| 0 <= g < f && 0 <= b < files@[g].0@.len() ==> (#[trigger] files@[g].0@[b]).package.deep_view() != Some(name@),
        decreases files.len() - f,
    {
        let beans = &files[f].0;
        let mut b: usize = 0;
        while b < beans.len()
            invariant
                b <= beans@.len(),
                f < files@.len(),
                beans == files@[f as int].0,
                forall|k: int| 0 <= k < b ==> (#[trigger] beans@[k]).package.deep_view() != Some(name@),
            decreases beans.len() - b,
        {
            if has_package(&beans[b].package, name) {
                return true;
            }
            b = b + 1;
        }
        f = f + 1;
    }
    false
}

/// The routes whose package passes the scan filter `bases`, in order.
pub open spec fn routes_under_spec(routes: Seq<RouteM>, bases: Option<Seq<Seq<char>>>) -> Seq<RouteM>
    decreases routes.len(),
{
    if routes.len() == 0 {
        Seq::empty()
    } else if under_scan_bases_spec(routes.last().package, bases) {
        routes_under_spec(routes.drop_last(), bases).push(routes.last())
    } else {
        routes_under_spec(routes.drop_last(), bases)
    }
}

/// The routes to install: those whose package passes the scan filter.
pub fn routes_under(routes: Vec<CompiledRoute>, bases: &Option<Vec<String>>) -> (r: Vec<CompiledRoute>)
    ensures
        r.deep_view() == routes_under_spec(routes.deep_view(), bases.deep_view()),
{
    let ghost rm = routes.deep_view();
    let ghost bm = bases.deep_view();
    let mut rest = routes;
    let mut kept: Vec<CompiledRoute> = Vec::new();
    let ghost mut i: int = 0;
    assert(rm.skip(0) =~= rm);
    assert(kept.deep_view() =~= routes_under_spec(rm.take(0), bm));
    while rest.len() > 0
        invariant
            0 <= i <= rm.len(),
            bm == bases.deep_view(),
            rest.deep_view() == rm.skip(i),
            kept.deep_view() == routes_under_spec(rm.take(i), bm),
        decreases rest.len(),
    {
        let ghost before = rest.deep_view();
        let r = rest.remove(0);
        assert(rest.deep_view() =~= before.drop_first()) by {
            assert forall|a: int| 0 <= a < rest.deep_view().len() implies rest.deep_view()[a] == before.drop_first()[a] by {
            }
        }
        assert(before[0] == r.deep_view());
        assert(rm[i] == r.deep_view());
        let keep = under_scan_bases(&r.package, bases);
        proof {
            assert(rm.take(i + 1).drop_last() =~= rm.take(i));
            assert(rm.skip(i).drop_first() =~= rm.skip(i + 1));
        }
        if keep {
            push_dv(&mut kept, r);
        }
        proof {
            i = i + 1;
        }
    }
    assert(rm.take(i) =~= rm);
    kept
}

/// The scan base of a `--main` class: its package.
pub fn main_scan_base(
    fqcn: &str,
    routes: &[CompiledRoute],
    files: &[(Vec<BeanSpec>, Vec<ClassDecl>)],
) -> (r: MainScan)
    ensures
        r.package@ == class_parts(fqcn@).0,
        r.class_seen == class_in_files(files@, class_parts(fqcn@).1),
        r.package_seen == package_in_scan(routes@, files@, class_parts(fqcn@).0),
{
    let (package, simple) = split_class(fqcn);
    let class_seen = class_seen_in(files, simple.as_str());
    let package_seen = package_seen_in(routes, files, package.as_str());
    MainScan { package, class_seen, package_seen }
}

// ---------------------------------------------------------------------------
// The port setting
// ---------------------------------------------------------------------------

pub open spec fn is_digit(c: char) -> bool {
    '0' <= c && c <= '9'
}

/// The value of a string of decimal digits.
pub open spec fn digits_value(d: Seq<char>) -> nat
    decreases d.len(),
{
    if d.len() == 0 {
        0
    } else {
        10 * digits_value(d.drop_last()) + ((d.last() as u32) - ('0' as u32)) as nat
    }
}

/// `s` without its leading `+`, if it has one.
pub open spec fn unsigned_part(s: Seq<char>) -> Seq<char> {
    if s.len() > 0 && s[0] == '+' {
        s.drop_first()
    } else {
        s
    }
}

pub open spec fn all_digits(d: Seq<char>) -> bool {
    forall|i: int| 0 <= i < d.len() ==> is_digit(#[trigger] d[i])
}

/// What `str::parse::<u16>` gives: an optional `+`, then one or more
/// decimal digits whose value fits in a `u16`.
pub open spec fn parsed_u16(s: Seq<char>) -> Option<u16> {
    let d = unsigned_part(s);
    if d.len() > 0 && all_digits(d) && digits_value(d) <= u16::MAX {
        Some(digits_value(d) as u16)
    } else {
        None
    }
}

pub open spec fn capped(n: nat) -> nat {
    if n > 65536 {
        65536
    } else {
        n
    }
}

/// Parses a port number the way `str::parse::<u16>` does.
pub fn parse_u16(s: &str) -> (r: Option<u16>)
    ensures
        r == parsed_u16(s@),
{
    let cs = chars_of(s);
    let start: usize = if cs.len() > 0 && cs[0] == '+' {
        1
    } else {
        0
    };
    let ghost d = unsigned_part(s@);
    assert(d =~= cs@.skip(start as int));
    if start >= cs.len() {
        return None;
    }
    let mut v: u32 = 0;
    let mut i: usize = start;
    assert(d.take(0) =~= Seq::<char>::empty());
    while i < cs.len()
        invariant
            start <= i <= cs@.len(),
            cs@ == s@,
            d == cs@.skip(start as int),
            d == unsigned_part(s@),
            v as nat == capped(digits_value(d.take(i - start))),
            forall|k: int| 0 <= k < i - start ==> is_digit(#[trigger] d[k]),
        decreases cs.len() - i,
    {
        let c = cs[i];
        if !(c >= '0' && c <= '9') {
            assert(!is_digit(d[i - start]));
            assert(!all_digits(d));
            assert(parsed_u16(s@) is None);
            return None;
        }
        let digit: u32 = (c as u32) - ('0' as u32);
        proof {
            assert(d.take(i - start + 1).drop_last() =~= d.take(i - start));
            assert(d.take(i - start + 1).last() == c);
        }
        v = if v >= 65536 {
            65536
        } else {
            let w = v * 10 + digit;
            if w > 65536 {
                65536
            } else {
                w
            }
        };
        i = i + 1;
    }
    assert(d.take(d.len() as int) =~= d);
    if v <= 65535 {
        Some(v as u16)
    } else {
        None
    }
}

/// The port to listen on: the `--port` flag, else a `RUSTJVM_PORT` value
/// that parses, else 8080.
pub open spec fn port_setting(flag: Option<u16>, env: Option<Seq<char>>) -> u16 {
    match flag {
        Some(p) => p,
        None => match env {
            Some(v) => match parsed_u16(v) {
                Some(p) => p,
                None => 8080,
            },
            None => 8080,
        },
    }
}

pub fn resolve_port(flag: Option<u16>, env: Option<&str>) -> (r: u16)
    ensures
        r == port_setting(flag, match env {
            Some(v) => Some(v@),
            None => None,
        }),
{
    match flag {
        Some(p) => p,
        None => match env {
            Some(v) => match parse_u16(v) {
                Some(p) => p,
                None => 8080,
            },
            None => 8080,
        },
    }
}

// ---------------------------------------------------------------------------
// The route listing
// ---------------------------------------------------------------------------

/// `s` padded with spaces to `w` characters (`{:<w}`).
pub open spec fn padded(s: Seq<char>, w: nat) -> Seq<char> {
    if s.len() >= w {
        s
    } else {
        s + Seq::new((w - s.len()) as nat, |i: int| ' ')
    }
}

/// The listing line of a route.
pub open spec fn route_line(r: RouteM) -> Seq<char> {
    "  "@ + padded(r.http_method, 6) + " "@ + padded(r.path, 24) + " -> "@ + r.class_name + "."@
        + r.method_name
}

/// `items` (sorted by key) with `x` put after every item whose key is not
/// greater: what a stable sort by key does with one more item.
pub open spec fn insert_stable(items: Seq<(Seq<char>, Seq<char>)>, x: (Seq<char>, Seq<char>)) -> Seq<(Seq<char>, Seq<char>)>
    decreases items.len(),
{
    if items.len() == 0 {
        seq![x]
    } else if text_lt(x.0, items.last().0) {
        insert_stable(items.drop_last(), x).push(items.last())
    } else {
        items.push(x)
    }
}

pub open spec fn sort_stable(items: Seq<(Seq<char>, Seq<char>)>) -> Seq<(Seq<char>, Seq<char>)>
    decreases items.len(),
{
    if items.len() == 0 {
        Seq::empty()
    } else {
        insert_stable(sort_stable(items.drop_last()), items.last())
    }
}

/// The lines listing `routes`, sorted by path (stably).
pub open spec fn route_listing(routes: Seq<RouteM>) -> Seq<Seq<char>> {
    sort_stable(routes.map_values(|r: RouteM| (r.path, route_line(r)))).map_values(
        |p: (Seq<char>, Seq<char>)| p.1,
    )
}

fn push_padded(out: &mut String, s: &str, w: usize)
    ensures
        final(out)@ == old(out)@ + padded(s@, w as nat),
{
    let ghost o = out@;
    let n = chars_of(s).len();
    push_str(out, s);
    let mut k: usize = n;
    while k < w
        invariant
            n == s@.len(),
            k == n || (n < k && k <= w),
            out@ == o + s@ + Seq::new((k - n) as nat, |i: int| ' '),
        decreases w - k,
    {
        push_char(out, ' ');
        assert(out@ =~= o + s@ + Seq::new((k + 1 - n) as nat, |i: int| ' '));
        k = k + 1;
    }
    proof {
        if n >= w {
            assert(Seq::new((k - n) as nat, |i: int| ' ') =~= Seq::<char>::empty());
            assert(out@ =~= o + s@);
        } else {
            assert(out@ =~= o + padded(s@, w as nat));
        }
    }
}

fn route_line_exec(r: &CompiledRoute) -> (line: String)
    ensures
        line@ == route_line(r.deep_view()),
{
    let mut out = string_of("  ");
    push_padded(&mut out, r.http_method.as_str(), 6);
    push_str(&mut out, " ");
    push_padded(&mut out, r.path.as_str(), 24);
    push_str(&mut out, " -> ");
    push_str(&mut out, r.class_name.as_str());
    push_str(&mut out, ".");
    push_str(&mut out, r.method_name.as_str());
    out
}

/// The listing of `routes`: one line per route, sorted by path, routes
/// with the same path in their given order.
pub fn route_lines(routes: &[CompiledRoute]) -> (r: Vec<String>)
    ensures
        r.deep_view() == route_listing(routes.deep_view()),
{
    let ghost items = routes.deep_view().map_values(|r: RouteM| (r.path, route_line(r)));
    let mut keys: Vec<String> = Vec::new();
    let mut lines: Vec<String> = Vec::new();
    let mut i: usize = 0;
    proof {
        assert(items.take(0) =~= Seq::<(Seq<char>, Seq<char>)>::empty());
    }
    while i < routes.len()
        invariant
            i <= routes@.len(),
            items == routes.deep_view().map_values(|r: RouteM| (r.path, route_line(r))),
            keys@.len() == lines@.len(),
            Seq::new(keys@.len(), |k: int| (keys@[k]@, lines@[k]@)) == sort_stable(items.take(i as int)),
        decreases routes.len() - i,
    {
        let r = &routes[i];
        let key = string_of(r.path.as_str());
        let line = route_line_exec(r);
        let ghost cur = Seq::new(keys@.len(), |k: int| (keys@[k]@, lines@[k]@));
        let ghost x = (key@, line@);
        assert(items[i as int] == x);
        let mut p: usize = keys.len();
        proof {
            assert(cur.take(cur.len() as int) =~= cur);
            assert(cur.skip(cur.len() as int) =~= Seq::<(Seq<char>, Seq<char>)>::empty());
            assert(insert_stable(cur, x) + Seq::<(Seq<char>, Seq<char>)>::empty() =~= insert_stable(cur, x));
        }
        while p > 0 && text_lt_exec(key.as_str(), keys[p - 1].as_str())
            invariant
                p <= keys@.len(),
                keys@.len() == lines@.len(),
                cur == Seq::new(keys@.len(), |k: int| (keys@[k]@, lines@[k]@)),
                x == (key@, line@),
                insert_stable(cur, x) == insert_stable(cur.take(p as int), x) + cur.skip(p as int),
            decreases p,
        {
            proof {
                let c = cur.take(p as int);
                assert(c.last() == cur[p - 1]);
                assert(cur[p - 1].0 == keys@[p - 1]@);
                assert(text_lt(x.0, c.last().0));
                assert(c.drop_last() =~= cur.take(p - 1));
                assert(cur.skip(p - 1) =~= seq![cur[p - 1]] + cur.skip(p as int));
                assert(insert_stable(c, x) == insert_stable(cur.take(p - 1), x).push(cur[p - 1]));
                assert(insert_stable(cur.take(p - 1), x).push(cur[p - 1]) + cur.skip(p as int)
                    =~= insert_stable(cur.take(p - 1), x) + cur.skip(p - 1));
            }
            p = p - 1;
        }
        proof {
            if p > 0 {
                let c = cur.take(p as int);
                assert(c.last() == cur[p - 1]);
                assert(cur[p - 1].0 == keys@[p - 1]@);
                assert(insert_stable(c, x) == c.push(x));
            } else {
                assert(cur.take(0) =~= Seq::<(Seq<char>, Seq<char>)>::empty());
            }
        }
        keys.insert(p, key);
        lines.insert(p, line);
        proof {
            assert(Seq::new(keys@.len(), |k: int| (keys@[k]@, lines@[k]@)) =~= cur.take(p as int).push(x) + cur.skip(p as int));
            assert(items.take(i + 1).drop_last() =~= items.take(i as int));
            assert(items.take(i + 1).last() == x);
        }
        i = i + 1;
    }
    proof {
        assert(items.take(routes@.len() as int) =~= items);
        assert(lines.deep_view() =~= route_listing(routes.deep_view()));
    }
    lines
}

// ---------------------------------------------------------------------------
// The container health check
// ---------------------------------------------------------------------------

/// The local runtime answered the health probe: its response starts with a
/// `200` status line.
pub fn health_ok(response: &str) -> (r: bool)
    ensures
        r == is_prefix("HTTP/1.1 200"@, response@),
{
    let r = chars_of(response);
    let p = chars_of("HTTP/1.1 200");
    starts_with_chars(r.as_slice(), p.as_slice())
}

} // verus!
