//! Kubernetes manifest generation for RustJVM apps.
//!
//! Generates a multi-document YAML bundle:
//!   1. The `RustJVMApp` CustomResourceDefinition
//!   2. A `RustJVMApp` custom resource describing your app
//!   3. A `Deployment` (health probes wired to /health, Prometheus scrape
//!      annotations pointing at /metrics)
//!   4. A `Service`
//!   5. A `ConfigMap` with a baseline `rustjvm.toml`
//!
//! Generation is pure: each document is a function of the [`AppSpec`].
use vstd::prelude::*;
use crate::text::{contains_seq, decimal, new_string, occurs_at, push_str, string_of, u64_to_string};

verus! {

/// What to deploy.
#[derive(Debug)]
pub struct AppSpec {
    pub name: String,
    pub image: String,
    pub port: u16,
    pub replicas: u32,
    pub memory_request: String,
    pub memory_limit: String,
    pub cpu_request: String,
    pub cpu_limit: String,
    /// Expose Prometheus scrape annotations and /metrics.
    pub observability: bool,
}

impl AppSpec {
    /// An app with the default sizing: port 8080, 3 replicas, 64Mi–256Mi
    /// of memory, 100m–500m of CPU, observability on.
    pub fn new(name: &str, image: &str) -> (r: AppSpec)
        ensures
            r.name@ == name@,
            r.image@ == image@,
            r.port == 8080,
            r.replicas == 3,
            r.memory_request@ == "64Mi"@,
            r.memory_limit@ == "256Mi"@,
            r.cpu_request@ == "100m"@,
            r.cpu_limit@ == "500m"@,
            r.observability,
    {
        AppSpec {
            name: string_of(name),
            image: string_of(image),
            port: 8080,
            replicas: 3,
            memory_request: string_of("64Mi"),
            memory_limit: string_of("256Mi"),
            cpu_request: string_of("100m"),
            cpu_limit: string_of("500m"),
            observability: true,
        }
    }
}

pub open spec fn bool_text(b: bool) -> Seq<char> {
    if b {
        "true"@
    } else {
        "false"@
    }
}

fn push_decimal(out: &mut String, n: u64)
    ensures
        final(out)@ == old(out)@ + decimal(n as nat),
{
    let s = u64_to_string(n);
    push_str(out, s.as_str());
}

fn push_bool(out: &mut String, b: bool)
    ensures
        final(out)@ == old(out)@ + bool_text(b),
{
    if b {
        push_str(out, "true");
    } else {
        push_str(out, "false");
    }
}

/// The RustJVMApp CustomResourceDefinition.
pub open spec fn crd_text() -> Seq<char> {
    "apiVersion: apiextensions.k8s.io/v1\nkind: CustomResourceDefinition\nmetadata:\n  name: rustjvmapps.rustjvm.io\nspec:\n  group: rustjvm.io\n  scope: Namespaced\n  names:\n    plural: rustjvmapps\n    singular: rustjvmapp\n    kind: RustJVMApp\n    shortNames: [\"rjapp\"]\n  versions:\n    - name: v1\n      served: true\n      storage: true\n      schema:\n        openAPIV3Schema:\n          type: object\n          properties:\n            spec:\n              type: object\n              properties:\n                image: { type: string }\n                replicas: { type: integer, minimum: 0 }\n                port: { type: integer }\n                hotReload:\n                  type: object\n                  properties:\n                    enabled: { type: boolean }\n                observability:\n                  type: object\n                  properties:\n                    metrics: { type: boolean }\n                    tracing: { type: boolean }\n                    otlpEndpoint: { type: string }"@
}

/// The RustJVMApp CustomResourceDefinition.
pub fn crd_yaml() -> (r: &'static str)
    ensures
        r@ == crd_text(),
{
    "apiVersion: apiextensions.k8s.io/v1\nkind: CustomResourceDefinition\nmetadata:\n  name: rustjvmapps.rustjvm.io\nspec:\n  group: rustjvm.io\n  scope: Namespaced\n  names:\n    plural: rustjvmapps\n    singular: rustjvmapp\n    kind: RustJVMApp\n    shortNames: [\"rjapp\"]\n  versions:\n    - name: v1\n      served: true\n      storage: true\n      schema:\n        openAPIV3Schema:\n          type: object\n          properties:\n            spec:\n              type: object\n              properties:\n                image: { type: string }\n                replicas: { type: integer, minimum: 0 }\n                port: { type: integer }\n                hotReload:\n                  type: object\n                  properties:\n                    enabled: { type: boolean }\n                observability:\n                  type: object\n                  properties:\n                    metrics: { type: boolean }\n                    tracing: { type: boolean }\n                    otlpEndpoint: { type: string }"
}

/// The Prometheus scrape annotations of the pod template, when
/// observability is on.
pub open spec fn prometheus_annotations(spec: AppSpec) -> Seq<char> {
    if spec.observability {
        "      annotations:\n        prometheus.io/scrape: \"true\"\n        prometheus.io/port: \""@
            + decimal(spec.port as nat) + "\"\n        prometheus.io/path: \"/metrics\"\n"@
    } else {
        Seq::empty()
    }
}

fn prometheus_annotations_exec(spec: &AppSpec) -> (r: String)
    ensures
        r@ == prometheus_annotations(*spec),
{
    let mut out = new_string();
    if spec.observability {
        push_str(&mut out, "      annotations:\n        prometheus.io/scrape: \"true\"\n        prometheus.io/port: \"");
        push_decimal(&mut out, spec.port as u64);
        push_str(&mut out, "\"\n        prometheus.io/path: \"/metrics\"\n");
    }
    proof {
        assert(out@ =~= prometheus_annotations(*spec));
    }
    out
}

/// The RustJVMApp custom resource for this app.
pub open spec fn app_cr_text(spec: AppSpec) -> Seq<char> {
    "apiVersion: rustjvm.io/v1\nkind: RustJVMApp\nmetadata:\n  name: "@
        + spec.name@
        + "\nspec:\n  image: "@
        + spec.image@
        + "\n  replicas: "@
        + decimal(spec.replicas as nat)
        + "\n  port: "@
        + decimal(spec.port as nat)
        + "\n  resources:\n    requests:\n      memory: \""@
        + spec.memory_request@
        + "\"\n      cpu: \""@
        + spec.cpu_request@
        + "\"\n    limits:\n      memory: \""@
        + spec.memory_limit@
        + "\"\n      cpu: \""@
        + spec.cpu_limit@
        + "\"\n  observability:\n    metrics: "@
        + bool_text(spec.observability)
}

/// The RustJVMApp custom resource for this app.
pub fn app_cr_yaml(spec: &AppSpec) -> (r: String)
    ensures
        r@ == app_cr_text(*spec),
{
    let mut out = new_string();
    push_str(&mut out, "apiVersion: rustjvm.io/v1\nkind: RustJVMApp\nmetadata:\n  name: ");
    push_str(&mut out, spec.name.as_str());
    push_str(&mut out, "\nspec:\n  image: ");
    push_str(&mut out, spec.image.as_str());
    push_str(&mut out, "\n  replicas: ");
    push_decimal(&mut out, spec.replicas as u64);
    push_str(&mut out, "\n  port: ");
    push_decimal(&mut out, spec.port as u64);
    push_str(&mut out, "\n  resources:\n    requests:\n      memory: \"");
    push_str(&mut out, spec.memory_request.as_str());
    push_str(&mut out, "\"\n      cpu: \"");
    push_str(&mut out, spec.cpu_request.as_str());
    push_str(&mut out, "\"\n    limits:\n      memory: \"");
    push_str(&mut out, spec.memory_limit.as_str());
    push_str(&mut out, "\"\n      cpu: \"");
    push_str(&mut out, spec.cpu_limit.as_str());
    push_str(&mut out, "\"\n  observability:\n    metrics: ");
    push_bool(&mut out, spec.observability);
    proof {
        assert(out@ =~= app_cr_text(*spec));
    }
    out
}

/// Plain Deployment — works even without the operator installed.
/// Rolling updates lean on RustJVM's fast cold start: new pods are ready
/// in milliseconds, so `maxUnavailable: 0` costs nothing.
pub open spec fn deployment_text(spec: AppSpec) -> Seq<char> {
    "apiVersion: apps/v1\nkind: Deployment\nmetadata:\n  name: "@
        + spec.name@
        + "\n  labels:\n    app: "@
        + spec.name@
        + "\nspec:\n  replicas: "@
        + decimal(spec.replicas as nat)
        + "\n  strategy:\n    rollingUpdate:\n      maxSurge: 1\n      maxUnavailable: 0\n  selector:\n    matchLabels:\n      app: "@
        + spec.name@
        + "\n  template:\n    metadata:\n      labels:\n        app: "@
        + spec.name@
        + "\n"@
        + prometheus_annotations(spec)
        + "    spec:\n      containers:\n        - name: "@
        + spec.name@
        + "\n          image: "@
        + spec.image@
        + "\n          ports:\n            - containerPort: "@
        + decimal(spec.port as nat)
        + "\n          resources:\n            requests:\n              memory: \""@
        + spec.memory_request@
        + "\"\n              cpu: \""@
        + spec.cpu_request@
        + "\"\n            limits:\n              memory: \""@
        + spec.memory_limit@
        + "\"\n              cpu: \""@
        + spec.cpu_limit@
        + "\"\n          readinessProbe:\n            httpGet:\n              path: /health\n              port: "@
        + decimal(spec.port as nat)
        + "\n            initialDelaySeconds: 1\n            periodSeconds: 5\n          livenessProbe:\n            httpGet:\n              path: /health\n              port: "@
        + decimal(spec.port as nat)
        + "\n            initialDelaySeconds: 2\n            periodSeconds: 10"@
}

/// Plain Deployment — works even without the operator installed.
/// Rolling updates lean on RustJVM's fast cold start: new pods are ready
/// in milliseconds, so `maxUnavailable: 0` costs nothing.
pub fn deployment_yaml(spec: &AppSpec) -> (r: String)
    ensures
        r@ == deployment_text(*spec),
{
    let mut out = new_string();
    push_str(&mut out, "apiVersion: apps/v1\nkind: Deployment\nmetadata:\n  name: ");
    push_str(&mut out, spec.name.as_str());
    push_str(&mut out, "\n  labels:\n    app: ");
    push_str(&mut out, spec.name.as_str());
    push_str(&mut out, "\nspec:\n  replicas: ");
    push_decimal(&mut out, spec.replicas as u64);
    push_str(&mut out, "\n  strategy:\n    rollingUpdate:\n      maxSurge: 1\n      maxUnavailable: 0\n  selector:\n    matchLabels:\n      app: ");
    push_str(&mut out, spec.name.as_str());
    push_str(&mut out, "\n  template:\n    metadata:\n      labels:\n        app: ");
    push_str(&mut out, spec.name.as_str());
    push_str(&mut out, "\n");
    push_str(&mut out, prometheus_annotations_exec(spec).as_str());
    push_str(&mut out, "    spec:\n      containers:\n        - name: ");
    push_str(&mut out, spec.name.as_str());
    push_str(&mut out, "\n          image: ");
    push_str(&mut out, spec.image.as_str());
    push_str(&mut out, "\n          ports:\n            - containerPort: ");
    push_decimal(&mut out, spec.port as u64);
    push_str(&mut out, "\n          resources:\n            requests:\n              memory: \"");
    push_str(&mut out, spec.memory_request.as_str());
    push_str(&mut out, "\"\n              cpu: \"");
    push_str(&mut out, spec.cpu_request.as_str());
    push_str(&mut out, "\"\n            limits:\n              memory: \"");
    push_str(&mut out, spec.memory_limit.as_str());
    push_str(&mut out, "\"\n              cpu: \"");
    push_str(&mut out, spec.cpu_limit.as_str());
    push_str(&mut out, "\"\n          readinessProbe:\n            httpGet:\n              path: /health\n              port: ");
    push_decimal(&mut out, spec.port as u64);
    push_str(&mut out, "\n            initialDelaySeconds: 1\n            periodSeconds: 5\n          livenessProbe:\n            httpGet:\n              path: /health\n              port: ");
    push_decimal(&mut out, spec.port as u64);
    push_str(&mut out, "\n            initialDelaySeconds: 2\n            periodSeconds: 10");
    proof {
        assert(out@ =~= deployment_text(*spec));
    }
    out
}

/// The Service in front of the app's pods.
pub open spec fn service_text(spec: AppSpec) -> Seq<char> {
    "apiVersion: v1\nkind: Service\nmetadata:\n  name: "@
        + spec.name@
        + "\nspec:\n  selector:\n    app: "@
        + spec.name@
        + "\n  ports:\n    - protocol: TCP\n      port: 80\n      targetPort: "@
        + decimal(spec.port as nat)
}

/// The Service in front of the app's pods.
pub fn service_yaml(spec: &AppSpec) -> (r: String)
    ensures
        r@ == service_text(*spec),
{
    let mut out = new_string();
    push_str(&mut out, "apiVersion: v1\nkind: Service\nmetadata:\n  name: ");
    push_str(&mut out, spec.name.as_str());
    push_str(&mut out, "\nspec:\n  selector:\n    app: ");
    push_str(&mut out, spec.name.as_str());
    push_str(&mut out, "\n  ports:\n    - protocol: TCP\n      port: 80\n      targetPort: ");
    push_decimal(&mut out, spec.port as u64);
    proof {
        assert(out@ =~= service_text(*spec));
    }
    out
}

/// A ConfigMap with a baseline `rustjvm.toml`.
pub open spec fn configmap_text(spec: AppSpec) -> Seq<char> {
    "apiVersion: v1\nkind: ConfigMap\nmetadata:\n  name: "@
        + spec.name@
        + "-config\ndata:\n  rustjvm.toml: |\n    [server]\n    port = "@
        + decimal(spec.port as nat)
        + "\n    host = \"0.0.0.0\"\n\n    [logging]\n    level = \"info\"\n    format = \"json\""@
}

/// A ConfigMap with a baseline `rustjvm.toml`.
pub fn configmap_yaml(spec: &AppSpec) -> (r: String)
    ensures
        r@ == configmap_text(*spec),
{
    let mut out = new_string();
    push_str(&mut out, "apiVersion: v1\nkind: ConfigMap\nmetadata:\n  name: ");
    push_str(&mut out, spec.name.as_str());
    push_str(&mut out, "-config\ndata:\n  rustjvm.toml: |\n    [server]\n    port = ");
    push_decimal(&mut out, spec.port as u64);
    push_str(&mut out, "\n    host = \"0.0.0.0\"\n\n    [logging]\n    level = \"info\"\n    format = \"json\"");
    proof {
        assert(out@ =~= configmap_text(*spec));
    }
    out
}

/// The full multi-document YAML bundle, `---`-separated.
pub open spec fn manifests_text(spec: AppSpec) -> Seq<char> {
    crd_text() + "\n---\n"@ + app_cr_text(spec) + "\n---\n"@ + deployment_text(spec) + "\n---\n"@
        + service_text(spec) + "\n---\n"@ + configmap_text(spec)
}

proof fn lemma_occurs_mid(a: Seq<char>, x: Seq<char>, b: Seq<char>)
    ensures
        contains_seq(a + x + b, x),
{
    assert((a + x + b).subrange(a.len() as int, (a.len() + x.len()) as int) =~= x);
    assert(occurs_at(x, a + x + b, a.len() as int));
}

proof fn lemma_contains_trans(a: Seq<char>, b: Seq<char>, c: Seq<char>)
    requires
        contains_seq(a, b),
        contains_seq(b, c),
    ensures
        contains_seq(a, c),
{
    let i = choose|i: int| occurs_at(b, a, i);
    let j = choose|j: int| occurs_at(c, b, j);
    assert(a.subrange(i + j, i + j + c.len()) =~= b.subrange(j, j + c.len()));
    assert(occurs_at(c, a, i + j));
}

/// `x + b` holds `x`.
proof fn lemma_prefix_contains(x: Seq<char>, b: Seq<char>)
    ensures
        contains_seq(x + b, x),
{
    assert((x + b).subrange(0, x.len() as int) =~= x);
    assert(occurs_at(x, x + b, 0));
}

proof fn lemma_contains_self(x: Seq<char>)
    ensures
        contains_seq(x, x),
{
    assert(x.subrange(0, x.len() as int) =~= x);
    assert(occurs_at(x, x, 0));
}


proof fn lemma_mid_at(a: Seq<char>, x: Seq<char>, b: Seq<char>)
    ensures
        occurs_at(x, a + x + b, a.len() as int),
{
    assert((a + x + b).subrange(a.len() as int, (a.len() + x.len()) as int) =~= x);
}

proof fn lemma_occurs_trans(a: Seq<char>, b: Seq<char>, c: Seq<char>, i: int, j: int)
    requires
        occurs_at(b, a, i),
        occurs_at(c, b, j),
    ensures
        occurs_at(c, a, i + j),
{
    assert(a.subrange(i + j, i + j + c.len()) =~= b.subrange(j, j + c.len()));
}

proof fn lemma_prefix_at(x: Seq<char>, b: Seq<char>)
    ensures
        occurs_at(x, x + b, 0),
{
    assert((x + b).subrange(0, x.len() as int) =~= x);
}

proof fn lemma_self_at(x: Seq<char>)
    ensures
        occurs_at(x, x, 0),
{
    assert(x.subrange(0, x.len() as int) =~= x);
}

#[verifier::spinoff_prover]
proof fn lemma_deployment_container(spec: AppSpec)
    ensures
        contains_seq(deployment_text(spec), "containerPort: "@ + decimal(spec.port as nat) + "\n"@),
{
    let d = deployment_text(spec);
    let p = decimal(spec.port as nat);
    let y0 = "apiVersion: apps/v1\nkind: Deployment\nmetadata:\n  name: "@ + spec.name@ + "\n  labels:\n    app: "@ + spec.name@ + "\nspec:\n  replicas: "@ + decimal(spec.replicas as nat) + "\n  strategy:\n    rollingUpdate:\n      maxSurge: 1\n      maxUnavailable: 0\n  selector:\n    matchLabels:\n      app: "@ + spec.name@ + "\n  template:\n    metadata:\n      labels:\n        app: "@ + spec.name@ + "\n"@ + prometheus_annotations(spec) + "    spec:\n      containers:\n        - name: "@ + spec.name@ + "\n          image: "@ + spec.image@ + "\n          ports:\n            - containerPort: "@ + decimal(spec.port as nat) + "\n          resources:\n            requests:\n              memory: \""@;
    let y1 = y0 + spec.memory_request@;
    lemma_prefix_at(y0, spec.memory_request@);
    let y2 = y1 + "\"\n              cpu: \""@;
    lemma_prefix_at(y1, "\"\n              cpu: \""@);
    let y3 = y2 + spec.cpu_request@;
    lemma_prefix_at(y2, spec.cpu_request@);
    let y4 = y3 + "\"\n            limits:\n              memory: \""@;
    lemma_prefix_at(y3, "\"\n            limits:\n              memory: \""@);
    let y5 = y4 + spec.memory_limit@;
    lemma_prefix_at(y4, spec.memory_limit@);
    let y6 = y5 + "\"\n              cpu: \""@;
    lemma_prefix_at(y5, "\"\n              cpu: \""@);
    let y7 = y6 + spec.cpu_limit@;
    lemma_prefix_at(y6, spec.cpu_limit@);
    let y8 = y7 + "\"\n          readinessProbe:\n            httpGet:\n              path: /health\n              port: "@;
    lemma_prefix_at(y7, "\"\n          readinessProbe:\n            httpGet:\n              path: /health\n              port: "@);
    let y9 = y8 + decimal(spec.port as nat);
    lemma_prefix_at(y8, decimal(spec.port as nat));
    let y10 = y9 + "\n            initialDelaySeconds: 1\n            periodSeconds: 5\n          livenessProbe:\n            httpGet:\n              path: /health\n              port: "@;
    lemma_prefix_at(y9, "\n            initialDelaySeconds: 1\n            periodSeconds: 5\n          livenessProbe:\n            httpGet:\n              path: /health\n              port: "@);
    let y11 = y10 + decimal(spec.port as nat);
    lemma_prefix_at(y10, decimal(spec.port as nat));
    let y12 = y11 + "\n            initialDelaySeconds: 2\n            periodSeconds: 10"@;
    lemma_prefix_at(y11, "\n            initialDelaySeconds: 2\n            periodSeconds: 10"@);
    assert(y12 == d);
    lemma_occurs_trans(d, y11, y10, 0, 0);
    lemma_occurs_trans(d, y10, y9, 0, 0);
    lemma_occurs_trans(d, y9, y8, 0, 0);
    lemma_occurs_trans(d, y8, y7, 0, 0);
    lemma_occurs_trans(d, y7, y6, 0, 0);
    lemma_occurs_trans(d, y6, y5, 0, 0);
    lemma_occurs_trans(d, y5, y4, 0, 0);
    lemma_occurs_trans(d, y4, y3, 0, 0);
    lemma_occurs_trans(d, y3, y2, 0, 0);
    lemma_occurs_trans(d, y2, y1, 0, 0);
    lemma_occurs_trans(d, y1, y0, 0, 0);
    reveal_strlit("\n");
    reveal_strlit("\n          ports:\n            - containerPort: ");
    reveal_strlit("\n          ports:\n            - ");
    reveal_strlit("containerPort: ");
    reveal_strlit("\n          resources:\n            requests:\n              memory: \"");
    reveal_strlit("          resources:\n            requests:\n              memory: \"");
    assert("\n          ports:\n            - containerPort: "@ =~= "\n          ports:\n            - "@ + "containerPort: "@);
    assert("\n          resources:\n            requests:\n              memory: \""@ =~= "\n"@ + "          resources:\n            requests:\n              memory: \""@);
    let q = "apiVersion: apps/v1\nkind: Deployment\nmetadata:\n  name: "@ + spec.name@ + "\n  labels:\n    app: "@ + spec.name@ + "\nspec:\n  replicas: "@ + decimal(spec.replicas as nat) + "\n  strategy:\n    rollingUpdate:\n      maxSurge: 1\n      maxUnavailable: 0\n  selector:\n    matchLabels:\n      app: "@ + spec.name@ + "\n  template:\n    metadata:\n      labels:\n        app: "@ + spec.name@ + "\n"@ + prometheus_annotations(spec) + "    spec:\n      containers:\n        - name: "@ + spec.name@ + "\n          image: "@ + spec.image@;
    let a = q + "\n          ports:\n            - "@;
    assert(y0 =~= a + ("containerPort: "@ + p + "\n"@) + "          resources:\n            requests:\n              memory: \""@);
    lemma_mid_at(a, "containerPort: "@ + p + "\n"@, "          resources:\n            requests:\n              memory: \""@);
    lemma_occurs_trans(d, y0, "containerPort: "@ + p + "\n"@, 0, a.len() as int);
    assert(occurs_at("containerPort: "@ + p + "\n"@, d, a.len() as int));
}

#[verifier::spinoff_prover]
proof fn lemma_deployment_readiness(spec: AppSpec)
    ensures
        contains_seq(deployment_text(spec), "readinessProbe:\n            httpGet:\n              path: /health\n              port: "@ + decimal(spec.port as nat) + "\n"@),
{
    let d = deployment_text(spec);
    let p = decimal(spec.port as nat);
    let y0 = "apiVersion: apps/v1\nkind: Deployment\nmetadata:\n  name: "@ + spec.name@ + "\n  labels:\n    app: "@ + spec.name@ + "\nspec:\n  replicas: "@ + decimal(spec.replicas as nat) + "\n  strategy:\n    rollingUpdate:\n      maxSurge: 1\n      maxUnavailable: 0\n  selector:\n    matchLabels:\n      app: "@ + spec.name@ + "\n  template:\n    metadata:\n      labels:\n        app: "@ + spec.name@ + "\n"@ + prometheus_annotations(spec) + "    spec:\n      containers:\n        - name: "@ + spec.name@ + "\n          image: "@ + spec.image@ + "\n          ports:\n            - containerPort: "@ + decimal(spec.port as nat) + "\n          resources:\n            requests:\n              memory: \""@ + spec.memory_request@ + "\"\n              cpu: \""@ + spec.cpu_request@ + "\"\n            limits:\n              memory: \""@ + spec.memory_limit@ + "\"\n              cpu: \""@ + spec.cpu_limit@ + "\"\n          readinessProbe:\n            httpGet:\n              path: /health\n              port: "@ + decimal(spec.port as nat) + "\n            initialDelaySeconds: 1\n            periodSeconds: 5\n          livenessProbe:\n            httpGet:\n              path: /health\n              port: "@;
    let y1 = y0 + decimal(spec.port as nat);
    lemma_prefix_at(y0, decimal(spec.port as nat));
    let y2 = y1 + "\n            initialDelaySeconds: 2\n            periodSeconds: 10"@;
    lemma_prefix_at(y1, "\n            initialDelaySeconds: 2\n            periodSeconds: 10"@);
    assert(y2 == d);
    lemma_occurs_trans(d, y1, y0, 0, 0);
    reveal_strlit("\n");
    reveal_strlit("\"\n          readinessProbe:\n            httpGet:\n              path: /health\n              port: ");
    reveal_strlit("\"\n          ");
    reveal_strlit("readinessProbe:\n            httpGet:\n              path: /health\n              port: ");
    reveal_strlit("\n            initialDelaySeconds: 1\n            periodSeconds: 5\n          livenessProbe:\n            httpGet:\n              path: /health\n              port: ");
    reveal_strlit("            initialDelaySeconds: 1\n            periodSeconds: 5\n          livenessProbe:\n            httpGet:\n              path: /health\n              port: ");
    assert("\"\n          readinessProbe:\n            httpGet:\n              path: /health\n              port: "@ =~= "\"\n          "@ + "readinessProbe:\n            httpGet:\n              path: /health\n              port: "@);
    assert("\n            initialDelaySeconds: 1\n            periodSeconds: 5\n          livenessProbe:\n            httpGet:\n              path: /health\n              port: "@ =~= "\n"@ + "            initialDelaySeconds: 1\n            periodSeconds: 5\n          livenessProbe:\n            httpGet:\n              path: /health\n              port: "@);
    let q = "apiVersion: apps/v1\nkind: Deployment\nmetadata:\n  name: "@ + spec.name@ + "\n  labels:\n    app: "@ + spec.name@ + "\nspec:\n  replicas: "@ + decimal(spec.replicas as nat) + "\n  strategy:\n    rollingUpdate:\n      maxSurge: 1\n      maxUnavailable: 0\n  selector:\n    matchLabels:\n      app: "@ + spec.name@ + "\n  template:\n    metadata:\n      labels:\n        app: "@ + spec.name@ + "\n"@ + prometheus_annotations(spec) + "    spec:\n      containers:\n        - name: "@ + spec.name@ + "\n          image: "@ + spec.image@ + "\n          ports:\n            - containerPort: "@ + decimal(spec.port as nat) + "\n          resources:\n            requests:\n              memory: \""@ + spec.memory_request@ + "\"\n              cpu: \""@ + spec.cpu_request@ + "\"\n            limits:\n              memory: \""@ + spec.memory_limit@ + "\"\n              cpu: \""@ + spec.cpu_limit@;
    let a = q + "\"\n          "@;
    assert(y0 =~= a + ("readinessProbe:\n            httpGet:\n              path: /health\n              port: "@ + p + "\n"@) + "            initialDelaySeconds: 1\n            periodSeconds: 5\n          livenessProbe:\n            httpGet:\n              path: /health\n              port: "@);
    lemma_mid_at(a, "readinessProbe:\n            httpGet:\n              path: /health\n              port: "@ + p + "\n"@, "            initialDelaySeconds: 1\n            periodSeconds: 5\n          livenessProbe:\n            httpGet:\n              path: /health\n              port: "@);
    lemma_occurs_trans(d, y0, "readinessProbe:\n            httpGet:\n              path: /health\n              port: "@ + p + "\n"@, 0, a.len() as int);
    assert(occurs_at("readinessProbe:\n            httpGet:\n              path: /health\n              port: "@ + p + "\n"@, d, a.len() as int));
}

#[verifier::spinoff_prover]
proof fn lemma_deployment_liveness(spec: AppSpec)
    ensures
        contains_seq(deployment_text(spec), "livenessProbe:\n            httpGet:\n              path: /health\n              port: "@ + decimal(spec.port as nat) + "\n"@),
{
    let d = deployment_text(spec);
    let p = decimal(spec.port as nat);
    let y0 = "apiVersion: apps/v1\nkind: Deployment\nmetadata:\n  name: "@ + spec.name@ + "\n  labels:\n    app: "@ + spec.name@ + "\nspec:\n  replicas: "@ + decimal(spec.replicas as nat) + "\n  strategy:\n    rollingUpdate:\n      maxSurge: 1\n      maxUnavailable: 0\n  selector:\n    matchLabels:\n      app: "@ + spec.name@ + "\n  template:\n    metadata:\n      labels:\n        app: "@ + spec.name@ + "\n"@ + prometheus_annotations(spec) + "    spec:\n      containers:\n        - name: "@ + spec.name@ + "\n          image: "@ + spec.image@ + "\n          ports:\n            - containerPort: "@ + decimal(spec.port as nat) + "\n          resources:\n            requests:\n              memory: \""@ + spec.memory_request@ + "\"\n              cpu: \""@ + spec.cpu_request@ + "\"\n            limits:\n              memory: \""@ + spec.memory_limit@ + "\"\n              cpu: \""@ + spec.cpu_limit@ + "\"\n          readinessProbe:\n            httpGet:\n              path: /health\n              port: "@ + decimal(spec.port as nat) + "\n            initialDelaySeconds: 1\n            periodSeconds: 5\n          livenessProbe:\n            httpGet:\n              path: /health\n              port: "@ + decimal(spec.port as nat) + "\n            initialDelaySeconds: 2\n            periodSeconds: 10"@;
    assert(y0 == d);
    lemma_self_at(d);
    reveal_strlit("\n");
    reveal_strlit("\n            initialDelaySeconds: 1\n            periodSeconds: 5\n          livenessProbe:\n            httpGet:\n              path: /health\n              port: ");
    reveal_strlit("\n            initialDelaySeconds: 1\n            periodSeconds: 5\n          ");
    reveal_strlit("livenessProbe:\n            httpGet:\n              path: /health\n              port: ");
    reveal_strlit("\n            initialDelaySeconds: 2\n            periodSeconds: 10");
    reveal_strlit("            initialDelaySeconds: 2\n            periodSeconds: 10");
    assert("\n            initialDelaySeconds: 1\n            periodSeconds: 5\n          livenessProbe:\n            httpGet:\n              path: /health\n              port: "@ =~= "\n            initialDelaySeconds: 1\n            periodSeconds: 5\n          "@ + "livenessProbe:\n            httpGet:\n              path: /health\n              port: "@);
    assert("\n            initialDelaySeconds: 2\n            periodSeconds: 10"@ =~= "\n"@ + "            initialDelaySeconds: 2\n            periodSeconds: 10"@);
    let q = "apiVersion: apps/v1\nkind: Deployment\nmetadata:\n  name: "@ + spec.name@ + "\n  labels:\n    app: "@ + spec.name@ + "\nspec:\n  replicas: "@ + decimal(spec.replicas as nat) + "\n  strategy:\n    rollingUpdate:\n      maxSurge: 1\n      maxUnavailable: 0\n  selector:\n    matchLabels:\n      app: "@ + spec.name@ + "\n  template:\n    metadata:\n      labels:\n        app: "@ + spec.name@ + "\n"@ + prometheus_annotations(spec) + "    spec:\n      containers:\n        - name: "@ + spec.name@ + "\n          image: "@ + spec.image@ + "\n          ports:\n            - containerPort: "@ + decimal(spec.port as nat) + "\n          resources:\n            requests:\n              memory: \""@ + spec.memory_request@ + "\"\n              cpu: \""@ + spec.cpu_request@ + "\"\n            limits:\n              memory: \""@ + spec.memory_limit@ + "\"\n              cpu: \""@ + spec.cpu_limit@ + "\"\n          readinessProbe:\n            httpGet:\n              path: /health\n              port: "@ + decimal(spec.port as nat);
    let a = q + "\n            initialDelaySeconds: 1\n            periodSeconds: 5\n          "@;
    assert(y0 =~= a + ("livenessProbe:\n            httpGet:\n              path: /health\n              port: "@ + p + "\n"@) + "            initialDelaySeconds: 2\n            periodSeconds: 10"@);
    lemma_mid_at(a, "livenessProbe:\n            httpGet:\n              path: /health\n              port: "@ + p + "\n"@, "            initialDelaySeconds: 2\n            periodSeconds: 10"@);
    lemma_occurs_trans(d, y0, "livenessProbe:\n            httpGet:\n              path: /health\n              port: "@ + p + "\n"@, 0, a.len() as int);
    assert(occurs_at("livenessProbe:\n            httpGet:\n              path: /health\n              port: "@ + p + "\n"@, d, a.len() as int));
}

#[verifier::spinoff_prover]
proof fn lemma_deployment_prometheus(spec: AppSpec)
    ensures
        contains_seq(deployment_text(spec), prometheus_annotations(spec)),
{
    let d = deployment_text(spec);
    let y0 = "apiVersion: apps/v1\nkind: Deployment\nmetadata:\n  name: "@ + spec.name@ + "\n  labels:\n    app: "@ + spec.name@ + "\nspec:\n  replicas: "@ + decimal(spec.replicas as nat) + "\n  strategy:\n    rollingUpdate:\n      maxSurge: 1\n      maxUnavailable: 0\n  selector:\n    matchLabels:\n      app: "@ + spec.name@ + "\n  template:\n    metadata:\n      labels:\n        app: "@ + spec.name@ + "\n"@ + prometheus_annotations(spec);
    let y1 = y0 + "    spec:\n      containers:\n        - name: "@;
    lemma_prefix_at(y0, "    spec:\n      containers:\n        - name: "@);
    let y2 = y1 + spec.name@;
    lemma_prefix_at(y1, spec.name@);
    let y3 = y2 + "\n          image: "@;
    lemma_prefix_at(y2, "\n          image: "@);
    let y4 = y3 + spec.image@;
    lemma_prefix_at(y3, spec.image@);
    let y5 = y4 + "\n          ports:\n            - containerPort: "@;
    lemma_prefix_at(y4, "\n          ports:\n            - containerPort: "@);
    let y6 = y5 + decimal(spec.port as nat);
    lemma_prefix_at(y5, decimal(spec.port as nat));
    let y7 = y6 + "\n          resources:\n            requests:\n              memory: \""@;
    lemma_prefix_at(y6, "\n          resources:\n            requests:\n              memory: \""@);
    let y8 = y7 + spec.memory_request@;
    lemma_prefix_at(y7, spec.memory_request@);
    let y9 = y8 + "\"\n              cpu: \""@;
    lemma_prefix_at(y8, "\"\n              cpu: \""@);
    let y10 = y9 + spec.cpu_request@;
    lemma_prefix_at(y9, spec.cpu_request@);
    let y11 = y10 + "\"\n            limits:\n              memory: \""@;
    lemma_prefix_at(y10, "\"\n            limits:\n              memory: \""@);
    let y12 = y11 + spec.memory_limit@;
    lemma_prefix_at(y11, spec.memory_limit@);
    let y13 = y12 + "\"\n              cpu: \""@;
    lemma_prefix_at(y12, "\"\n              cpu: \""@);
    let y14 = y13 + spec.cpu_limit@;
    lemma_prefix_at(y13, spec.cpu_limit@);
    let y15 = y14 + "\"\n          readinessProbe:\n            httpGet:\n              path: /health\n              port: "@;
    lemma_prefix_at(y14, "\"\n          readinessProbe:\n            httpGet:\n              path: /health\n              port: "@);
    let y16 = y15 + decimal(spec.port as nat);
    lemma_prefix_at(y15, decimal(spec.port as nat));
    let y17 = y16 + "\n            initialDelaySeconds: 1\n            periodSeconds: 5\n          livenessProbe:\n            httpGet:\n              path: /health\n              port: "@;
    lemma_prefix_at(y16, "\n            initialDelaySeconds: 1\n            periodSeconds: 5\n          livenessProbe:\n            httpGet:\n              path: /health\n              port: "@);
    let y18 = y17 + decimal(spec.port as nat);
    lemma_prefix_at(y17, decimal(spec.port as nat));
    let y19 = y18 + "\n            initialDelaySeconds: 2\n            periodSeconds: 10"@;
    lemma_prefix_at(y18, "\n            initialDelaySeconds: 2\n            periodSeconds: 10"@);
    assert(y19 == d);
    lemma_occurs_trans(d, y18, y17, 0, 0);
    lemma_occurs_trans(d, y17, y16, 0, 0);
    lemma_occurs_trans(d, y16, y15, 0, 0);
    lemma_occurs_trans(d, y15, y14, 0, 0);
    lemma_occurs_trans(d, y14, y13, 0, 0);
    lemma_occurs_trans(d, y13, y12, 0, 0);
    lemma_occurs_trans(d, y12, y11, 0, 0);
    lemma_occurs_trans(d, y11, y10, 0, 0);
    lemma_occurs_trans(d, y10, y9, 0, 0);
    lemma_occurs_trans(d, y9, y8, 0, 0);
    lemma_occurs_trans(d, y8, y7, 0, 0);
    lemma_occurs_trans(d, y7, y6, 0, 0);
    lemma_occurs_trans(d, y6, y5, 0, 0);
    lemma_occurs_trans(d, y5, y4, 0, 0);
    lemma_occurs_trans(d, y4, y3, 0, 0);
    lemma_occurs_trans(d, y3, y2, 0, 0);
    lemma_occurs_trans(d, y2, y1, 0, 0);
    lemma_occurs_trans(d, y1, y0, 0, 0);
    let q = "apiVersion: apps/v1\nkind: Deployment\nmetadata:\n  name: "@ + spec.name@ + "\n  labels:\n    app: "@ + spec.name@ + "\nspec:\n  replicas: "@ + decimal(spec.replicas as nat) + "\n  strategy:\n    rollingUpdate:\n      maxSurge: 1\n      maxUnavailable: 0\n  selector:\n    matchLabels:\n      app: "@ + spec.name@ + "\n  template:\n    metadata:\n      labels:\n        app: "@ + spec.name@ + "\n"@;
    lemma_mid_at(q, prometheus_annotations(spec), Seq::<char>::empty());
    assert(y0 + Seq::<char>::empty() =~= y0);
    lemma_occurs_trans(d, y0, prometheus_annotations(spec), 0, q.len() as int);
    assert(occurs_at(prometheus_annotations(spec), d, q.len() as int));
}

proof fn lemma_suffix_at(a: Seq<char>, x: Seq<char>)
    ensures
        occurs_at(x, a + x, a.len() as int),
{
    assert((a + x).subrange(a.len() as int, (a.len() + x.len()) as int) =~= x);
}

/// Where the Deployment and the Service stand in the bundle.
proof fn lemma_bundle_parts(spec: AppSpec)
    ensures
        exists|i: int| occurs_at(deployment_text(spec), manifests_text(spec), i),
        exists|i: int| occurs_at(service_text(spec), manifests_text(spec), i),
{
    let m = manifests_text(spec);
    let d = deployment_text(spec);
    let sv = service_text(spec);
    let sep = "\n---\n"@;
    let p4 = crd_text() + sep + app_cr_text(spec) + sep;
    let y0 = p4 + d;
    let y1 = y0 + sep;
    let y2 = y1 + sv;
    let y3 = y2 + sep;
    let y4 = y3 + configmap_text(spec);
    assert(y4 == m);
    lemma_prefix_at(y3, configmap_text(spec));
    lemma_prefix_at(y2, sep);
    lemma_prefix_at(y1, sv);
    lemma_prefix_at(y0, sep);
    lemma_occurs_trans(m, y3, y2, 0, 0);
    lemma_suffix_at(y1, sv);
    lemma_occurs_trans(m, y2, sv, 0, y1.len() as int);
    lemma_occurs_trans(m, y2, y1, 0, 0);
    lemma_occurs_trans(m, y1, y0, 0, 0);
    lemma_suffix_at(p4, d);
    lemma_occurs_trans(m, y0, d, 0, p4.len() as int);
}

/// The Service targets the app's port.
proof fn lemma_service_port(spec: AppSpec)
    ensures
        occurs_at("targetPort: "@ + decimal(spec.port as nat), service_text(spec), service_text(spec).len() - ("targetPort: "@ + decimal(spec.port as nat)).len()),
{
    let p = decimal(spec.port as nat);
    reveal_strlit("\n  ports:\n    - protocol: TCP\n      port: 80\n      targetPort: ");
    reveal_strlit("\n  ports:\n    - protocol: TCP\n      port: 80\n      ");
    reveal_strlit("targetPort: ");
    assert("\n  ports:\n    - protocol: TCP\n      port: 80\n      targetPort: "@ =~= "\n  ports:\n    - protocol: TCP\n      port: 80\n      "@ + "targetPort: "@);
    let sq = "apiVersion: v1\nkind: Service\nmetadata:\n  name: "@ + spec.name@ + "\nspec:\n  selector:\n    app: "@ + spec.name@ + "\n  ports:\n    - protocol: TCP\n      port: 80\n      "@;
    assert(service_text(spec) =~= sq + ("targetPort: "@ + p));
    lemma_suffix_at(sq, "targetPort: "@ + p);
}

/// With observability, the scrape annotations name the app's port.
proof fn lemma_prometheus_port(spec: AppSpec)
    requires
        spec.observability,
    ensures
        exists|i: int| occurs_at("prometheus.io/port: \""@ + decimal(spec.port as nat) + "\""@, prometheus_annotations(spec), i),
{
    let p = decimal(spec.port as nat);
    let pa = prometheus_annotations(spec);
    reveal_strlit("      annotations:\n        prometheus.io/scrape: \"true\"\n        prometheus.io/port: \"");
    reveal_strlit("      annotations:\n        prometheus.io/scrape: \"true\"\n        ");
    reveal_strlit("prometheus.io/port: \"");
    reveal_strlit("\"\n        prometheus.io/path: \"/metrics\"\n");
    reveal_strlit("\n        prometheus.io/path: \"/metrics\"\n");
    reveal_strlit("\"");
    let a = "      annotations:\n        prometheus.io/scrape: \"true\"\n        "@;
    assert("      annotations:\n        prometheus.io/scrape: \"true\"\n        prometheus.io/port: \""@ =~= a + "prometheus.io/port: \""@);
    assert("\"\n        prometheus.io/path: \"/metrics\"\n"@ =~= "\""@ + "\n        prometheus.io/path: \"/metrics\"\n"@);
    assert(pa =~= a + ("prometheus.io/port: \""@ + p + "\""@) + "\n        prometheus.io/path: \"/metrics\"\n"@);
    lemma_mid_at(a, "prometheus.io/port: \""@ + p + "\""@, "\n        prometheus.io/path: \"/metrics\"\n"@);
}

proof fn lemma_via(a: Seq<char>, b: Seq<char>, c: Seq<char>)
    requires
        exists|i: int| occurs_at(b, a, i),
        contains_seq(b, c),
    ensures
        contains_seq(a, c),
{
    let i = choose|i: int| occurs_at(b, a, i);
    let j = choose|j: int| occurs_at(c, b, j);
    lemma_occurs_trans(a, b, c, i, j);
}

/// The manifest bundle runs the app on its own port throughout: the
/// Deployment's container port, the port of its readiness and liveness
/// probes on `/health`, the Service's target port, and, with observability,
/// the Prometheus scrape port are all `spec.port`.
pub proof fn lemma_manifests_use_port(spec: AppSpec)
    ensures
        ({
            let m = manifests_text(spec);
            let p = decimal(spec.port as nat);
            &&& contains_seq(m, "containerPort: "@ + p + "\n"@)
            &&& contains_seq(m, "readinessProbe:\n            httpGet:\n              path: /health\n              port: "@ + p + "\n"@)
            &&& contains_seq(m, "livenessProbe:\n            httpGet:\n              path: /health\n              port: "@ + p + "\n"@)
            &&& contains_seq(m, "targetPort: "@ + p)
            &&& spec.observability ==> contains_seq(m, "prometheus.io/port: \""@ + p + "\""@)
        }),
{
    let m = manifests_text(spec);
    let d = deployment_text(spec);
    let p = decimal(spec.port as nat);
    lemma_bundle_parts(spec);
    lemma_deployment_container(spec);
    lemma_deployment_readiness(spec);
    lemma_deployment_liveness(spec);
    lemma_via(m, d, "containerPort: "@ + p + "\n"@);
    lemma_via(m, d, "readinessProbe:\n            httpGet:\n              path: /health\n              port: "@ + p + "\n"@);
    lemma_via(m, d, "livenessProbe:\n            httpGet:\n              path: /health\n              port: "@ + p + "\n"@);
    lemma_service_port(spec);
    lemma_via(m, service_text(spec), "targetPort: "@ + p);
    if spec.observability {
        lemma_deployment_prometheus(spec);
        lemma_prometheus_port(spec);
        let i = choose|i: int| occurs_at(prometheus_annotations(spec), d, i);
        lemma_via(d, prometheus_annotations(spec), "prometheus.io/port: \""@ + p + "\""@);
        lemma_via(m, d, "prometheus.io/port: \""@ + p + "\""@);
    }
}

/// The full multi-document YAML bundle, `---`-separated.
pub fn generate_manifests(spec: &AppSpec) -> (r: String)
    ensures
        r@ == manifests_text(*spec),
{
    let mut out = string_of(crd_yaml());
    push_str(&mut out, "\n---\n");
    push_str(&mut out, app_cr_yaml(spec).as_str());
    push_str(&mut out, "\n---\n");
    push_str(&mut out, deployment_yaml(spec).as_str());
    push_str(&mut out, "\n---\n");
    push_str(&mut out, service_yaml(spec).as_str());
    push_str(&mut out, "\n---\n");
    push_str(&mut out, configmap_yaml(spec).as_str());
    proof {
        assert(out@ =~= manifests_text(*spec));
    }
    out
}

} // verus!
