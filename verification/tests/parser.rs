//! Parsing sources of each language, and resolving the calls found in them.

use ochna::db::{Node, RawCall};
use ochna::parser::c_like::names_macro;
use ochna::parser::interner::SymbolIndex;
use ochna::parser::parse_code;
use ochna::parser::resolve::{resolve_calls_global, resolve_calls_local};
use ochna::paths::holds_tests;

#[test]
fn test_parse_rust_code() {
    let rust_code = r#"
/// A simple Rust struct.
pub struct Point {
    pub x: i32,
    pub y: i32,
}

/// Point implementation.
impl Point {
    /// Create a new point.
    pub fn new(x: i32, y: i32) -> Self {
        Point { x, y }
    }

    /// Retrieve sum of coordinates.
    pub fn sum(&self) -> i32 {
        self.helper()
    }

    fn helper(&self) -> i32 {
        self.x + self.y
    }
}

/// Enum for directions.
pub enum Direction {
    Up,
    Down,
}

/// Trait for displaying point information.
pub trait Printable {
    fn print(&self);
}

fn test_free_fn() {
    let p = Point::new(1, 2);
    p.sum();
}
"#;

    let (nodes, calls) = parse_code("src/point.rs", rust_code, "rust").unwrap();
    let edges = resolve_calls_local(&nodes, &calls);

    // Let's assert nodes
    let struct_node = nodes
        .iter()
        .find(|n| n.name == "Point" && n.kind == "struct")
        .unwrap();
    assert_eq!(struct_node.id, "src/point.rs::Point");
    assert_eq!(
        struct_node.doc_comment.as_deref(),
        Some("/// A simple Rust struct.")
    );
    assert_eq!(struct_node.signature.as_deref(), Some("pub struct Point"));

    let enum_node = nodes
        .iter()
        .find(|n| n.name == "Direction" && n.kind == "enum")
        .unwrap();
    assert_eq!(enum_node.id, "src/point.rs::Direction");
    assert_eq!(
        enum_node.doc_comment.as_deref(),
        Some("/// Enum for directions.")
    );

    let trait_node = nodes
        .iter()
        .find(|n| n.name == "Printable" && n.kind == "trait")
        .unwrap();
    assert_eq!(trait_node.id, "src/point.rs::Printable");
    assert_eq!(
        trait_node.doc_comment.as_deref(),
        Some("/// Trait for displaying point information.")
    );

    // Methods within impl block
    let new_method = nodes
        .iter()
        .find(|n| n.name == "new" && n.kind == "method")
        .unwrap();
    assert_eq!(new_method.id, "src/point.rs::Point::new");
    assert_eq!(
        new_method.doc_comment.as_deref(),
        Some("/// Create a new point.")
    );
    assert_eq!(
        new_method.signature.as_deref(),
        Some("pub fn new(x: i32, y: i32) -> Self")
    );

    let sum_method = nodes
        .iter()
        .find(|n| n.name == "sum" && n.kind == "method")
        .unwrap();
    assert_eq!(sum_method.id, "src/point.rs::Point::sum");
    assert_eq!(
        sum_method.doc_comment.as_deref(),
        Some("/// Retrieve sum of coordinates.")
    );

    let helper_method = nodes
        .iter()
        .find(|n| n.name == "helper" && n.kind == "method")
        .unwrap();
    assert_eq!(helper_method.id, "src/point.rs::Point::helper");

    let free_fn = nodes
        .iter()
        .find(|n| n.name == "test_free_fn" && n.kind == "function")
        .unwrap();
    assert_eq!(free_fn.id, "src/point.rs::test_free_fn");

    // Edges: sum calls helper
    let edge_sum_helper = edges
        .iter()
        .find(|e| e.source_id == sum_method.id && e.target_id == helper_method.id)
        .unwrap();
    assert_eq!(edge_sum_helper.kind, "calls");

    // Edges: test_free_fn calls Point::new (via new) and sum
    let edge_free_new = edges
        .iter()
        .find(|e| e.source_id == free_fn.id && e.target_id == new_method.id)
        .unwrap();
    assert_eq!(edge_free_new.kind, "calls");

    let edge_free_sum = edges
        .iter()
        .find(|e| e.source_id == free_fn.id && e.target_id == sum_method.id)
        .unwrap();
    assert_eq!(edge_free_sum.kind, "calls");
}

#[test]
fn test_resolve_calls_global_prefers_explicit_namespace() {
    let nodes = vec![
        Node {
            id: "src/shapes.rs::Point::new".to_string(),
            name: "new".to_string(),
            kind: "method".to_string(),
            qualified_name: Some("Point::new".to_string()),
            file_path: "src/shapes.rs".to_string(),
            start_line: 1,
            end_line: 1,
            start_column: 0,
            end_column: 0,
            signature: None,
            doc_comment: None,
            is_test: false,
            resolution_kind: None,
            confidence: None,
        },
        Node {
            id: "src/shapes.rs::Line::new".to_string(),
            name: "new".to_string(),
            kind: "method".to_string(),
            qualified_name: Some("Line::new".to_string()),
            file_path: "src/shapes.rs".to_string(),
            start_line: 2,
            end_line: 2,
            start_column: 0,
            end_column: 0,
            signature: None,
            doc_comment: None,
            is_test: false,
            resolution_kind: None,
            confidence: None,
        },
        Node {
            id: "src/shapes.rs::build".to_string(),
            name: "build".to_string(),
            kind: "function".to_string(),
            qualified_name: Some("build".to_string()),
            file_path: "src/shapes.rs".to_string(),
            start_line: 3,
            end_line: 3,
            start_column: 0,
            end_column: 0,
            signature: None,
            doc_comment: None,
            is_test: false,
            resolution_kind: None,
            confidence: None,
        },
    ];
    let calls = vec![RawCall::new(
        "src/shapes.rs::build".to_string(),
        "Line::new".to_string(),
        3,
        4,
    )];

    let edges = resolve_calls_local(&nodes, &calls);

    assert_eq!(edges.len(), 1);
    assert_eq!(edges[0].source_id, "src/shapes.rs::build");
    assert_eq!(edges[0].target_id, "src/shapes.rs::Line::new");
}

#[test]
fn test_symbol_index_interns_ids_paths_and_namespaces() {
    let nodes = vec![
        Node {
            id: "src/shapes.rs::Point::new".to_string(),
            name: "new".to_string(),
            kind: "method".to_string(),
            qualified_name: Some("Point::new".to_string()),
            file_path: "src/shapes.rs".to_string(),
            start_line: 1,
            end_line: 1,
            start_column: 0,
            end_column: 0,
            signature: None,
            doc_comment: None,
            is_test: false,
            resolution_kind: None,
            confidence: None,
        },
        Node {
            id: "src/shapes.rs::Point::sum".to_string(),
            name: "sum".to_string(),
            kind: "method".to_string(),
            qualified_name: Some("Point::sum".to_string()),
            file_path: "src/shapes.rs".to_string(),
            start_line: 2,
            end_line: 2,
            start_column: 0,
            end_column: 0,
            signature: None,
            doc_comment: None,
            is_test: false,
            resolution_kind: None,
            confidence: None,
        },
    ];

    let index = SymbolIndex::from_nodes(&nodes);

    assert_eq!(index.symbols.len(), 2);
    assert_ne!(index.symbols[0].id, index.symbols[1].id);
    assert_eq!(index.symbols[0].file_path, index.symbols[1].file_path);
    assert_eq!(index.symbols[0].namespace, index.symbols[1].namespace);
    assert_eq!(
        index.strings[index.symbols[0].file_path as usize],
        "src/shapes.rs"
    );
    assert_eq!(
        index.strings[index.symbols[0].namespace.unwrap() as usize],
        "Point"
    );
}

#[test]
fn test_parse_go_code() {
    let go_code = r#"
package geometry

// Point represents a 2D point.
type Point struct {
	X, Y int
}

// Printer is an interface.
type Printer interface {
	Print()
}

// NewPoint creates a new point.
func NewPoint(x, y int) *Point {
	return &Point{X: x, Y: y}
}

// Distance calculates distance.
func (p *Point) Distance() float64 {
	p.helper()
	return 0.0
}

func (p *Point) helper() {
	// nested helper
}
"#;

    let (nodes, calls) = parse_code("geometry.go", go_code, "go").unwrap();
    let edges = resolve_calls_local(&nodes, &calls);

    // Assert nodes
    let struct_node = nodes
        .iter()
        .find(|n| n.name == "Point" && n.kind == "struct")
        .unwrap();
    assert_eq!(struct_node.id, "geometry.go::Point");
    assert_eq!(
        struct_node.doc_comment.as_deref(),
        Some("// Point represents a 2D point.")
    );
    assert_eq!(struct_node.signature.as_deref(), Some("type Point"));

    let interface_node = nodes
        .iter()
        .find(|n| n.name == "Printer" && n.kind == "interface")
        .unwrap();
    assert_eq!(interface_node.id, "geometry.go::Printer");
    assert_eq!(
        interface_node.doc_comment.as_deref(),
        Some("// Printer is an interface.")
    );

    let func_node = nodes
        .iter()
        .find(|n| n.name == "NewPoint" && n.kind == "function")
        .unwrap();
    assert_eq!(func_node.id, "geometry.go::NewPoint");
    assert_eq!(
        func_node.doc_comment.as_deref(),
        Some("// NewPoint creates a new point.")
    );
    assert_eq!(
        func_node.signature.as_deref(),
        Some("func NewPoint(x, y int) *Point")
    );

    let method_node = nodes
        .iter()
        .find(|n| n.name == "Distance" && n.kind == "method")
        .unwrap();
    assert_eq!(method_node.id, "geometry.go::Point::Distance");
    assert_eq!(
        method_node.doc_comment.as_deref(),
        Some("// Distance calculates distance.")
    );
    assert_eq!(
        method_node.signature.as_deref(),
        Some("func (p *Point) Distance() float64")
    );

    let helper_method = nodes
        .iter()
        .find(|n| n.name == "helper" && n.kind == "method")
        .unwrap();
    assert_eq!(helper_method.id, "geometry.go::Point::helper");

    // Edges: Distance calls helper
    let edge_call = edges
        .iter()
        .find(|e| e.source_id == method_node.id && e.target_id == helper_method.id)
        .unwrap();
    assert_eq!(edge_call.kind, "calls");
}

#[test]
fn test_parse_java_code() {
    let java_code = r#"
/**
 * A sample Java class.
 */
public class App {
    private String name;

    /**
     * Constructor.
     */
    public App(String name) {
        this.name = name;
        init();
    }

    /**
     * Init method.
     */
    public void init() {
        // init
    }

    /**
     * Run method.
     */
    public void run() {
        System.out.println("Run");
    }

    /**
     * Main entry point.
     */
    public static void main(String[] args) {
        App app = new App("Demo");
        app.run();
    }
}
"#;

    let (nodes, calls) = parse_code("src/App.java", java_code, "java").unwrap();
    let edges = resolve_calls_local(&nodes, &calls);

    // Find class node
    let class_node = nodes
        .iter()
        .find(|n| n.name == "App" && n.kind == "class")
        .unwrap();
    assert_eq!(class_node.id, "src/App.java::App");
    assert_eq!(
        class_node.doc_comment.as_deref(),
        Some("/**\n * A sample Java class.\n */")
    );
    assert_eq!(class_node.signature.as_deref(), Some("public class App"));

    // Find constructor node
    let constr_node = nodes
        .iter()
        .find(|n| n.name == "App" && n.kind == "constructor")
        .unwrap();
    assert_eq!(constr_node.id, "src/App.java::App::App");
    assert_eq!(
        constr_node.doc_comment.as_deref(),
        Some("/**\n     * Constructor.\n     */")
    );
    assert_eq!(
        constr_node.signature.as_deref(),
        Some("public App(String name)")
    );

    // Find init method
    let init_method = nodes
        .iter()
        .find(|n| n.name == "init" && n.kind == "method")
        .unwrap();
    assert_eq!(init_method.id, "src/App.java::App::init");
    assert_eq!(
        init_method.doc_comment.as_deref(),
        Some("/**\n     * Init method.\n     */")
    );
    assert_eq!(init_method.signature.as_deref(), Some("public void init()"));

    // Find run method
    let run_method = nodes
        .iter()
        .find(|n| n.name == "run" && n.kind == "method")
        .unwrap();
    assert_eq!(run_method.id, "src/App.java::App::run");

    // Find main method
    let main_method = nodes
        .iter()
        .find(|n| n.name == "main" && n.kind == "method")
        .unwrap();
    assert_eq!(main_method.id, "src/App.java::App::main");

    // Check call edges
    // Constructor App calls init
    let edge_constr_init = edges
        .iter()
        .find(|e| e.source_id == constr_node.id && e.target_id == init_method.id)
        .unwrap();
    assert_eq!(edge_constr_init.kind, "calls");

    // main calls constructor (via new App)
    let edge_main_constr = edges
        .iter()
        .find(|e| e.source_id == main_method.id && e.target_id == constr_node.id)
        .unwrap();
    assert_eq!(edge_main_constr.kind, "calls");

    // main calls run method (via app.run)
    let edge_main_run = edges
        .iter()
        .find(|e| e.source_id == main_method.id && e.target_id == run_method.id)
        .unwrap();
    assert_eq!(edge_main_run.kind, "calls");
}

#[test]
fn test_parse_spring_routes() {
    let java_code = r#"
@RestController
@RequestMapping(value = "/api/v2")
public class UserController {
    @GetMapping("/users/{id}")
    public User getUser(@PathVariable String id) {
        return null;
    }

    @PostMapping(path = {"/users", "/create"})
    public User createUser() {
        return null;
    }

    @RequestMapping(value = "/status", method = RequestMethod.POST)
    public String getStatus() {
        return "OK";
    }
}
"#;

    let (nodes, calls) = parse_code("src/UserController.java", java_code, "java").unwrap();

    let class_node = nodes
        .iter()
        .find(|n| n.name == "UserController" && n.kind == "class")
        .unwrap();
    assert_eq!(class_node.id, "src/UserController.java::UserController");

    let get_user = nodes
        .iter()
        .find(|n| n.name == "getUser" && n.kind == "method")
        .unwrap();
    let create_user = nodes
        .iter()
        .find(|n| n.name == "createUser" && n.kind == "method")
        .unwrap();
    let get_status = nodes
        .iter()
        .find(|n| n.name == "getStatus" && n.kind == "method")
        .unwrap();

    let route_get = nodes
        .iter()
        .find(|n| {
            n.id == "src/UserController.java::UserController::getUser::route::GET /api/v2/users/{id}"
        })
        .unwrap();
    assert_eq!(route_get.name, "GET /api/v2/users/{id}");
    assert_eq!(route_get.kind, "route");
    assert_eq!(
        route_get.qualified_name.as_deref(),
        Some("GET /api/v2/users/{id}")
    );

    let route_create1 = nodes
        .iter()
        .find(|n| {
            n.id == "src/UserController.java::UserController::createUser::route::POST /api/v2/users"
        })
        .unwrap();
    assert_eq!(route_create1.name, "POST /api/v2/users");

    let route_create2 = nodes
        .iter()
        .find(|n| {
            n.id == "src/UserController.java::UserController::createUser::route::POST /api/v2/create"
        })
        .unwrap();
    assert_eq!(route_create2.name, "POST /api/v2/create");

    let route_status = nodes
        .iter()
        .find(|n| {
            n.id == "src/UserController.java::UserController::getStatus::route::POST /api/v2/status"
        })
        .unwrap();
    assert_eq!(route_status.name, "POST /api/v2/status");

    let edges = resolve_calls_local(&nodes, &calls);

    let edge_get = edges.iter().find(|e| e.source_id == route_get.id).unwrap();
    assert_eq!(edge_get.target_id, get_user.id);
    assert_eq!(edge_get.kind, "calls");

    let edge_create1 = edges
        .iter()
        .find(|e| e.source_id == route_create1.id)
        .unwrap();
    assert_eq!(edge_create1.target_id, create_user.id);

    let edge_create2 = edges
        .iter()
        .find(|e| e.source_id == route_create2.id)
        .unwrap();
    assert_eq!(edge_create2.target_id, create_user.id);

    let edge_status = edges
        .iter()
        .find(|e| e.source_id == route_status.id)
        .unwrap();
    assert_eq!(edge_status.target_id, get_status.id);
}

#[test]
fn test_parse_spring_routes_keeps_duplicate_paths_distinct() {
    let first = r#"
@RestController
@RequestMapping("/api")
public class FirstController {
    @RequestMapping("/status")
    public String status() {
        return "first";
    }
}
"#;
    let second = r#"
@RestController
@RequestMapping("/api")
public class SecondController {
    @RequestMapping("/status")
    public String status() {
        return "second";
    }
}
"#;

    let (mut nodes, mut calls) = parse_code("src/FirstController.java", first, "java").unwrap();
    let (second_nodes, second_calls) =
        parse_code("src/SecondController.java", second, "java").unwrap();
    nodes.extend(second_nodes);
    calls.extend(second_calls);

    let first_route = nodes
        .iter()
        .find(|n| {
            n.id == "src/FirstController.java::FirstController::status::route::ANY /api/status"
        })
        .unwrap();
    let second_route = nodes
        .iter()
        .find(|n| {
            n.id
                == "src/SecondController.java::SecondController::status::route::ANY /api/status"
        })
        .unwrap();
    assert_ne!(first_route.id, second_route.id);
    assert_eq!(first_route.name, "ANY /api/status");
    assert_eq!(second_route.name, "ANY /api/status");

    let edges = resolve_calls_local(&nodes, &calls);
    let first_status = nodes
        .iter()
        .find(|n| n.id == "src/FirstController.java::FirstController::status")
        .unwrap();
    let second_status = nodes
        .iter()
        .find(|n| n.id == "src/SecondController.java::SecondController::status")
        .unwrap();
    assert!(edges
        .iter()
        .any(|e| e.source_id == first_route.id && e.target_id == first_status.id));
    assert!(edges
        .iter()
        .any(|e| e.source_id == second_route.id && e.target_id == second_status.id));
}

#[test]
fn test_parse_c_code() {
    let c_code = r#"
// Point struct.
struct Point {
    int x;
    int y;
};

// Helper function.
int helper(int value) {
    return value + 1;
}

// Main entry point.
int main(void) {
    return helper(41);
}
"#;

    let (nodes, calls) = parse_code("src/main.c", c_code, "c").unwrap();
    let edges = resolve_calls_local(&nodes, &calls);

    let struct_node = nodes
        .iter()
        .find(|n| n.name == "Point" && n.kind == "struct")
        .unwrap();
    assert_eq!(struct_node.id, "src/main.c::Point");
    assert_eq!(struct_node.doc_comment.as_deref(), Some("// Point struct."));

    let helper = nodes
        .iter()
        .find(|n| n.name == "helper" && n.kind == "function")
        .unwrap();
    assert_eq!(helper.id, "src/main.c::helper");
    assert_eq!(helper.doc_comment.as_deref(), Some("// Helper function."));

    let main = nodes
        .iter()
        .find(|n| n.name == "main" && n.kind == "function")
        .unwrap();
    assert_eq!(main.id, "src/main.c::main");

    let edge_main_helper = edges
        .iter()
        .find(|e| e.source_id == main.id && e.target_id == helper.id)
        .unwrap();
    assert_eq!(edge_main_helper.kind, "calls");
}

#[test]
fn test_parse_cpp_code() {
    let cpp_code = r#"
namespace demo {
// Point class.
class Point {
public:
    int sum() {
        return helper();
    }

    int helper() {
        return 42;
    }
};

int run() {
    Point point;
    return point.sum();
}
}
"#;

    let (nodes, calls) = parse_code("src/point.cpp", cpp_code, "cpp").unwrap();
    let edges = resolve_calls_local(&nodes, &calls);

    let namespace = nodes
        .iter()
        .find(|n| n.name == "demo" && n.kind == "namespace")
        .unwrap();
    assert_eq!(namespace.id, "src/point.cpp::demo");

    let class_node = nodes
        .iter()
        .find(|n| n.name == "Point" && n.kind == "class")
        .unwrap();
    assert_eq!(class_node.id, "src/point.cpp::demo::Point");
    assert_eq!(class_node.doc_comment.as_deref(), Some("// Point class."));

    let sum_method = nodes
        .iter()
        .find(|n| n.name == "sum" && n.kind == "method")
        .unwrap();
    assert_eq!(sum_method.id, "src/point.cpp::demo::Point::sum");

    let helper_method = nodes
        .iter()
        .find(|n| n.name == "helper" && n.kind == "method")
        .unwrap();
    assert_eq!(helper_method.id, "src/point.cpp::demo::Point::helper");

    let run = nodes
        .iter()
        .find(|n| n.name == "run" && n.kind == "function")
        .unwrap();
    assert_eq!(run.id, "src/point.cpp::demo::run");

    let edge_sum_helper = edges
        .iter()
        .find(|e| e.source_id == sum_method.id && e.target_id == helper_method.id)
        .unwrap();
    assert_eq!(edge_sum_helper.kind, "calls");

    let edge_run_sum = edges
        .iter()
        .find(|e| e.source_id == run.id && e.target_id == sum_method.id)
        .unwrap();
    assert_eq!(edge_run_sum.kind, "calls");
}

#[test]
fn test_parse_zig_code() {
    let zig_code = r#"
/// Point type.
const Point = struct {
    x: i32,
    y: i32,

    /// Sum fields.
    fn sum(self: Point) i32 {
        return self.helper();
    }

    fn helper(self: Point) i32 {
        return self.x + self.y;
    }
};

fn makePoint() Point {
    return Point{ .x = 1, .y = 2 };
}

pub fn main() void {
    const point = makePoint();
    _ = point.sum();
}
"#;

    let (nodes, calls) = parse_code("src/main.zig", zig_code, "zig").unwrap();
    let edges = resolve_calls_local(&nodes, &calls);

    let struct_node = nodes
        .iter()
        .find(|n| n.name == "Point" && n.kind == "struct")
        .unwrap();
    assert_eq!(struct_node.id, "src/main.zig::Point");
    assert_eq!(struct_node.doc_comment.as_deref(), Some("/// Point type."));

    let sum_method = nodes
        .iter()
        .find(|n| n.name == "sum" && n.kind == "method")
        .unwrap();
    assert_eq!(sum_method.id, "src/main.zig::Point::sum");
    assert_eq!(sum_method.doc_comment.as_deref(), Some("/// Sum fields."));

    let helper_method = nodes
        .iter()
        .find(|n| n.name == "helper" && n.kind == "method")
        .unwrap();
    assert_eq!(helper_method.id, "src/main.zig::Point::helper");

    let make_point = nodes
        .iter()
        .find(|n| n.name == "makePoint" && n.kind == "function")
        .unwrap();
    assert_eq!(make_point.id, "src/main.zig::makePoint");

    let main = nodes
        .iter()
        .find(|n| n.name == "main" && n.kind == "function")
        .unwrap();
    assert_eq!(main.id, "src/main.zig::main");

    let edge_sum_helper = edges
        .iter()
        .find(|e| e.source_id == sum_method.id && e.target_id == helper_method.id)
        .unwrap();
    assert_eq!(edge_sum_helper.kind, "calls");

    let edge_main_make_point = edges
        .iter()
        .find(|e| e.source_id == main.id && e.target_id == make_point.id)
        .unwrap();
    assert_eq!(edge_main_make_point.kind, "calls");

    let edge_main_sum = edges
        .iter()
        .find(|e| e.source_id == main.id && e.target_id == sum_method.id)
        .unwrap();
    assert_eq!(edge_main_sum.kind, "calls");
}

#[test]
fn test_parse_cpp_out_of_line_method() {
    // An out-of-line method defined inside its namespace should inherit the
    // namespace prefix so it matches the in-class declaration's qname.
    let cpp_code = r#"
namespace demo {
class Point {
public:
    int sum();
};

int Point::sum() {
    return 42;
}
}
"#;

    let (nodes, _calls) = parse_code("src/point.cpp", cpp_code, "cpp").unwrap();

    let sum_method = nodes
        .iter()
        .find(|n| n.name == "sum" && n.kind == "method")
        .unwrap();
    assert_eq!(sum_method.id, "src/point.cpp::demo::Point::sum");
}

#[test]
fn test_parse_zig_keyword_in_string_is_not_a_type() {
    // The container-kind heuristic must not treat a string literal (or a
    // plain value) containing "struct"/"enum"/"union" as a type symbol.
    let zig_code = r#"
const message = "this mentions a struct and an enum";
const Real = struct {
    x: i32,
};
"#;

    let (nodes, _calls) = parse_code("src/main.zig", zig_code, "zig").unwrap();

    assert!(
        nodes.iter().all(|n| n.name != "message"),
        "string-valued const should not be indexed as a type"
    );
    assert!(
        nodes.iter().any(|n| n.name == "Real" && n.kind == "struct"),
        "genuine struct declaration should still be indexed"
    );
}

#[test]
fn go_calls_carry_their_context() {
    let source = r#"package server

import (
    "net/http"
    log "example.com/pkg/logging"
)

func (c *Cacher) GetList() {
    c.inner.GetList()
    http.NewRequest()
    log.Info()
    helper()
}
"#;
    let (_, calls) = parse_code("pkg/cacher.go", source, "go").unwrap();
    let found: Vec<(&str, Option<&str>, Option<&str>, Option<&str>)> = calls
        .iter()
        .map(|call| {
            (
                call.callee_name.as_str(),
                call.call_kind.as_deref(),
                call.receiver_expr.as_deref(),
                call.import_hint.as_deref(),
            )
        })
        .collect();
    assert_eq!(
        found,
        vec![
            ("GetList", Some("method"), Some("c.inner"), None),
            ("NewRequest", Some("function"), Some("http"), Some("net/http")),
            (
                "Info",
                Some("function"),
                Some("log"),
                Some("example.com/pkg/logging")
            ),
            ("helper", Some("function"), None, None),
        ]
    );
    assert!(calls
        .iter()
        .all(|call| call.package_or_namespace.as_deref() == Some("server")));
}

#[test]
fn go_imports_lead_to_the_package_of_their_path() {
    let (mut nodes, calls) = parse_code(
        "cmd/main.go",
        "package main\n\nimport \"pkg/store\"\n\nfunc main() {\n\tstore.Open()\n}\n",
        "go",
    )
    .unwrap();
    for path in ["pkg/store/open.go", "pkg/cache/open.go"] {
        let (found, _) = parse_code(path, "package p\n\nfunc Open() {}\n", "go").unwrap();
        nodes.extend(found);
    }
    let (edges, unresolved) = resolve_calls_global(&calls, &SymbolIndex::from_nodes(&nodes));
    assert_eq!(edges.len(), 1);
    assert_eq!(edges[0].target_id, "pkg/store/open.go::Open");
    assert_eq!(edges[0].resolution_kind, 3);
    assert!(unresolved.is_empty());
}

#[test]
fn symbols_of_test_files_are_tests() {
    let source = "fn checks() {}\n";
    for (path, expected) in [
        ("src/lib.rs", false),
        ("tests/render_tests.rs", true),
        ("src/test/java/Runner.rs", true),
        ("src/contest.rs", false),
        ("tests.rs", true),
        ("src/attest/run.rs", false),
        ("src/parser_test.rs", true),
        ("src/test_parser.rs", true),
        ("src/Latest.rs", false),
        ("src/OwnerTests.rs", true),
        ("src/test", false),
    ] {
        assert_eq!(holds_tests(path), expected, "{path}");
        let (nodes, _) = parse_code(path, source, "rust").unwrap();
        assert_eq!(nodes.len(), 1);
        assert_eq!(nodes[0].is_test, expected, "{path}");
    }
}

#[test]
fn java_sources_hold_what_frameworks_make_of_them() {
    let source = r#"package app;

@Service
class Orders {
    @Autowired
    private Mailer mailer;
}

@FeignClient(name = "users")
interface Users {
    @GetMapping("/users")
    String list();
}
"#;
    let (nodes, calls) = parse_code("src/A.java", source, "java").unwrap();
    let endpoint = "feign::users::app::Users::list";
    assert!(nodes
        .iter()
        .any(|node| node.kind == "feign_endpoint"
            && node.qualified_name.as_deref() == Some(endpoint)));
    let kinds: Vec<&str> = calls
        .iter()
        .map(|call| call.relationship_kind.as_str())
        .collect();
    assert_eq!(kinds, vec!["injected_into", "feign_calls"]);
    let (edges, _) = resolve_calls_global(&calls, &SymbolIndex::from_nodes(&nodes));
    assert_eq!(edges.len(), 1);
    assert_eq!(edges[0].source_id, "src/A.java::app::Users::list");
    assert_eq!(edges[0].target_id, format!("src/A.java::{endpoint}"));
    assert_eq!(edges[0].kind, "feign_calls");
    assert_eq!(edges[0].resolution_kind, 6);
}

#[test]
fn calls_through_pointers_and_of_macros_are_marked() {
    let source = r#"
void hook(int x) {}

void run(struct ops *ops, void (**table)(int)) {
    BUG_ON(1);
    (*hook)(2);
    table[0](3);
    ops->open(4);
    hook(5);
}
"#;
    let (nodes, calls) = parse_code("src/run.c", source, "c").unwrap();
    let found: Vec<(&str, Option<&str>)> = calls
        .iter()
        .map(|call| (call.callee_name.as_str(), call.call_kind.as_deref()))
        .collect();
    assert_eq!(found[0], ("BUG_ON", Some("macro_or_function")));
    assert_eq!(found[1], ("hook", Some("indirect")));
    assert_eq!(found[2].1, Some("indirect"));
    assert_eq!(found[3], ("open", None));
    assert_eq!(found[4], ("hook", None));
    assert!(names_macro("MAX_2"));
    assert!(!names_macro("__"));
    assert!(!names_macro("Max"));

    let (edges, unresolved) = resolve_calls_global(&calls, &SymbolIndex::from_nodes(&nodes));
    assert_eq!(edges.len(), 1);
    assert_eq!(edges[0].target_id, "src/run.c::hook");
    let reasons: Vec<(&str, i64)> = unresolved
        .iter()
        .map(|reference| (reference.kind.as_str(), reference.line))
        .collect();
    assert_eq!(
        reasons,
        vec![
            ("macro_or_function", 5),
            ("indirect_call", 6),
            ("indirect_call", 7),
            ("calls", 8),
        ]
    );
}
