//! What frameworks make of Java classes.

use ochna::db::RawCall;
use ochna::parser::common::Extraction;
use ochna::parser::java::{combine_paths, find_import_hint, grpc_client_service};
use ochna::parser::java_framework::extract_framework_relationships;
use ochna::parser::syntax::{read_tree, Grammar};
use ochna::parser::{java_import_names, java_package_name, parse_code};

fn relations(source: &str) -> Extraction {
    let tree = read_tree(Grammar::Java, source).unwrap();
    let package = java_package_name(&tree);
    let mut out = Extraction::new();
    extract_framework_relationships(&tree, "src/A.java", package.as_deref(), &mut out);
    out
}

/// Who is related to what, how, in which direction and at which tier.
fn summary(calls: &[RawCall]) -> Vec<(&str, &str, &str, bool, Option<i64>)> {
    calls
        .iter()
        .map(|call| {
            (
                call.caller_id.as_str(),
                call.callee_name.as_str(),
                call.relationship_kind.as_str(),
                call.reverse_edge,
                call.resolution_hint,
            )
        })
        .collect()
}

#[test]
fn components_are_injected_by_fields_and_constructors() {
    let out = relations(
        r#"
package app;

@Service
class Orders {
    @Autowired
    private Mailer mailer;
    private Clock clock;

    Orders(Store store) {
    }
}
"#,
    );
    assert_eq!(
        summary(&out.calls),
        vec![
            ("src/A.java::app::Orders", "Mailer", "injected_into", true, Some(6)),
            ("src/A.java::app::Orders", "Store", "injected_into", true, Some(7)),
        ]
    );
    assert!(out.nodes.is_empty());
}

#[test]
fn only_annotated_constructors_inject_where_there_are_several() {
    let out = relations(
        r#"
@Component
class Orders {
    Orders(Store store) {
    }

    @Inject
    Orders(Mailer mailer, Clock clock) {
    }
}
"#,
    );
    assert_eq!(
        summary(&out.calls),
        vec![
            ("src/A.java::Orders", "Mailer", "injected_into", true, Some(6)),
            ("src/A.java::Orders", "Clock", "injected_into", true, Some(6)),
        ]
    );
}

#[test]
fn plain_classes_ask_for_nothing() {
    let out = relations("class Orders {\n    @Autowired\n    private Mailer mailer;\n}\n");
    assert!(out.calls.is_empty());
}

#[test]
fn configuration_keys_bind_to_classes() {
    let out = relations(
        r#"
@Configuration
@ConfigurationProperties(prefix = "mail")
class Mail {
    @Value("${mail.host}")
    private String host;
}
"#,
    );
    let keys: Vec<(&str, &str, Option<&str>)> = out
        .nodes
        .iter()
        .map(|node| {
            (
                node.id.as_str(),
                node.kind.as_str(),
                node.qualified_name.as_deref(),
            )
        })
        .collect();
    assert_eq!(
        keys,
        vec![
            (
                "src/A.java::config::mail::Mail",
                "config_key",
                Some("config::mail::Mail")
            ),
            (
                "src/A.java::config::mail.host::Mail",
                "config_key",
                Some("config::mail.host::Mail")
            ),
        ]
    );
    assert_eq!(
        summary(&out.calls),
        vec![
            (
                "src/A.java::config::mail::Mail",
                "Mail",
                "configuration_binds",
                false,
                Some(6)
            ),
            (
                "src/A.java::config::mail.host::Mail",
                "Mail",
                "configuration_binds",
                false,
                Some(6)
            ),
        ]
    );
    assert_eq!(out.calls[0].target_qualified_hint.as_deref(), Some("Mail"));
}

#[test]
fn events_are_published_and_consumed() {
    let out = relations(
        r#"
class Events {
    @EventListener
    void onPaid(OrderPaid event) {
    }

    @EventListener(OrderSent.class)
    void onSent() {
    }

    void pay() {
        OrderPaid paid = load();
        bus.publishEvent(paid);
        bus.publishEvent(new OrderSent());
        bus.publishEvent(unknown);
    }
}
"#,
    );
    assert_eq!(
        summary(&out.calls),
        vec![
            (
                "src/A.java::Events::onPaid",
                "OrderPaid",
                "consumes_event",
                true,
                Some(6)
            ),
            (
                "src/A.java::Events::onSent",
                "OrderSent",
                "consumes_event",
                true,
                Some(6)
            ),
            (
                "src/A.java::Events::pay",
                "OrderPaid",
                "publishes_event",
                false,
                Some(7)
            ),
            (
                "src/A.java::Events::pay",
                "OrderSent",
                "publishes_event",
                false,
                Some(7)
            ),
        ]
    );
}

#[test]
fn remote_clients_call_endpoints() {
    let out = relations(
        r#"
@FeignClient("billing")
interface Billing {
    @GetMapping("/bills")
    String bills();

    String other();
}
"#,
    );
    assert_eq!(out.nodes.len(), 1);
    assert_eq!(out.nodes[0].kind, "feign_endpoint");
    assert_eq!(out.nodes[0].name, "bills");
    assert_eq!(
        out.nodes[0].qualified_name.as_deref(),
        Some("feign::billing::Billing::bills")
    );
    assert_eq!(
        summary(&out.calls),
        vec![(
            "src/A.java::Billing::bills",
            "bills",
            "feign_calls",
            false,
            Some(6)
        )]
    );
    assert_eq!(
        out.calls[0].target_qualified_hint.as_deref(),
        Some("feign::billing::Billing::bills")
    );
}

#[test]
fn remote_services_offer_endpoints() {
    let out = relations(
        r#"
@GrpcService
class Greeter extends GreeterGrpc.GreeterImplBase {
    void greet() {
    }
}
"#,
    );
    assert_eq!(out.nodes.len(), 1);
    assert_eq!(out.nodes[0].kind, "grpc_endpoint");
    assert_eq!(
        out.nodes[0].qualified_name.as_deref(),
        Some("grpc::Greeter::greet")
    );
    assert!(out.calls.is_empty());
}

#[test]
fn stubs_call_remote_services() {
    let (_, calls) = parse_code(
        "src/A.java",
        r#"
package app;

import app.remote.GreeterGrpc;

class Client {
    void run(GreeterGrpc.GreeterBlockingStub stub) {
        stub.greet();
    }
}
"#,
        "java",
    )
    .unwrap();
    assert_eq!(calls.len(), 1);
    assert_eq!(calls[0].relationship_kind, "grpc_calls");
    assert_eq!(
        calls[0].target_qualified_hint.as_deref(),
        Some("grpc::Greeter::greet")
    );
    assert_eq!(calls[0].resolution_hint, Some(8));
    assert_eq!(calls[0].package_or_namespace.as_deref(), Some("app"));
    assert_eq!(
        grpc_client_service("GreeterGrpc.GreeterBlockingStub").as_deref(),
        Some("Greeter")
    );
    assert_eq!(grpc_client_service("Greeter"), None);
}

#[test]
fn packages_and_imports_are_read() {
    let source = "package a.b;\nimport c.D;\nimport static e.F.g;\nimport h.*;\nclass X {}\n";
    let tree = read_tree(Grammar::Java, source).unwrap();
    assert_eq!(java_package_name(&tree).as_deref(), Some("a.b"));
    let imports = java_import_names(&tree);
    assert!(imports.contains(&"c.D".to_string()));
    assert_eq!(find_import_hint("D", &imports).as_deref(), Some("c.D"));
    assert_eq!(find_import_hint("Z", &imports), None);
}

#[test]
fn route_paths_are_joined() {
    assert_eq!(combine_paths("/api", "/users"), "/api/users");
    assert_eq!(combine_paths("api/", "users"), "/api/users");
    assert_eq!(combine_paths("", ""), "/");
}

#[test]
fn relations_are_reversed_by_their_kind() {
    let source = r#"
package app;

@Service
class Orders {
    @Autowired
    private Mailer mailer;
    @Value("${orders.limit}")
    private int limit;

    @EventListener
    void on(Placed event) {
        publisher.publishEvent(new Shipped());
        helper.run();
    }
}
"#;
    let (_, calls) = parse_code("src/A.java", source, "java").unwrap();
    let mut kinds: Vec<&str> = Vec::new();
    for call in &calls {
        let simple = call.callee_name.rsplit("::").next().unwrap();
        assert_eq!(call.callee_simple, simple);
        let kind = call.relationship_kind.as_str();
        assert_eq!(
            call.reverse_edge,
            kind == "injected_into" || kind == "consumes_event",
            "{kind}"
        );
        kinds.push(kind);
    }
    for kind in [
        "calls",
        "injected_into",
        "configuration_binds",
        "consumes_event",
        "publishes_event",
    ] {
        assert!(kinds.contains(&kind), "{kind}");
    }
}
