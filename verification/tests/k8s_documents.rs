use rustjvm::k8s::{app_cr_yaml, configmap_yaml, crd_yaml, deployment_yaml, generate_manifests, service_yaml, AppSpec};

#[test]
fn bundle_is_the_five_documents_joined() {
    let spec = AppSpec::new("a", "i:1");
    let joined = [
        crd_yaml().to_string(),
        app_cr_yaml(&spec),
        deployment_yaml(&spec),
        service_yaml(&spec),
        configmap_yaml(&spec),
    ]
    .join("\n---\n");
    assert_eq!(generate_manifests(&spec), joined);
    assert_eq!(generate_manifests(&spec).matches("\n---\n").count(), 4);
}

#[test]
fn service_and_configmap_exact_text() {
    let mut spec = AppSpec::new("web", "img");
    spec.port = 9090;
    assert_eq!(
        service_yaml(&spec),
        "apiVersion: v1\nkind: Service\nmetadata:\n  name: web\nspec:\n  selector:\n    app: web\n  ports:\n    - protocol: TCP\n      port: 80\n      targetPort: 9090"
    );
    assert!(configmap_yaml(&spec).starts_with("apiVersion: v1\nkind: ConfigMap\nmetadata:\n  name: web-config\n"));
    assert!(configmap_yaml(&spec).contains("    port = 9090\n"));
}

#[test]
fn custom_resource_reports_observability() {
    let mut spec = AppSpec::new("a", "i:1");
    assert!(app_cr_yaml(&spec).ends_with("  observability:\n    metrics: true"));
    spec.observability = false;
    assert!(app_cr_yaml(&spec).ends_with("  observability:\n    metrics: false"));
    assert!(deployment_yaml(&spec).contains("        app: a\n    spec:\n"));
}
