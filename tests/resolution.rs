use router_analyzer::forest::{
    check_load, is_main_routing_file, resolve_children_recursively, resolve_forest, resolve_load_children_path,
    ResolveError,
    SourceTree,
};
use router_analyzer::model::RouteInfo;
use router_analyzer::resolve::{
    candidate_base, candidates, dir_of, first_existing, import_target, join, name_of, stem_of,
};
use router_analyzer::syntax::Node;

fn s(t: &str) -> String {
    t.to_string()
}

fn ident(t: &str) -> Node {
    Node::Ident(s(t))
}

fn kv(key: &str, value: Node) -> Node {
    Node::KeyValue(s(key), Box::new(value))
}

fn route_obj(path: &str, lazy: Option<&str>) -> Node {
    let mut props = vec![kv("path", Node::Str(s(path)))];
    if let Some(body) = lazy {
        props.push(kv(
            "loadChildren",
            Node::Arrow(s(body), Box::new(Node::Other(vec![]))),
        ));
    }
    Node::Object(props)
}

fn decl(name: &str, init: Node) -> Node {
    Node::Other(vec![Node::Decl(s(name), Box::new(init))])
}

fn register(method: &str, arg: Node) -> Node {
    Node::Call(
        Box::new(Node::Member(Box::new(ident("RouterModule")), s(method))),
        vec![arg],
    )
}

/// Files held in memory: each file is rebuilt from its source function when
/// loaded, and every load is recorded.
struct MemoryTree {
    files: Vec<(String, fn() -> Vec<Node>)>,
    dirs: Vec<String>,
    loads: Vec<String>,
}

impl SourceTree for MemoryTree {
    fn is_dir(&self, path: &str) -> bool {
        self.dirs.iter().any(|d| d == path)
    }

    fn is_file(&self, path: &str) -> bool {
        self.files.iter().any(|(p, _)| p == path)
    }

    fn load(&mut self, path: &str) -> Result<Vec<Node>, String> {
        self.loads.push(path.to_string());
        match self.files.iter().find(|(p, _)| p == path) {
            Some((_, build)) => Ok(build()),
            None => Err(format!("no such file: {}", path)),
        }
    }
}

fn tree(files: Vec<(&str, fn() -> Vec<Node>)>, dirs: Vec<&str>) -> MemoryTree {
    MemoryTree {
        files: files.into_iter().map(|(p, f)| (s(p), f)).collect(),
        dirs: dirs.into_iter().map(s).collect(),
        loads: Vec::new(),
    }
}

fn empty_module() -> Vec<Node> {
    vec![]
}

const LAZY_ADMIN: &str = "import('./admin/admin.module').then(m => m.AdminModule)";

fn app_module() -> Vec<Node> {
    vec![
        decl(
            "routes",
            Node::Array(vec![route_obj("home", None), route_obj("admin", Some(LAZY_ADMIN))]),
        ),
        register("forRoot", ident("routes")),
    ]
}

fn admin_module() -> Vec<Node> {
    vec![
        decl("adminroutes", Node::Array(vec![route_obj("", None)])),
        register("forChild", ident("adminroutes")),
    ]
}

fn admin_module_camel_case() -> Vec<Node> {
    vec![
        decl("adminRoutes", Node::Array(vec![route_obj("", None)])),
        register("forChild", ident("adminRoutes")),
    ]
}

#[test]
fn import_target_reads_the_quoted_argument() {
    assert_eq!(import_target(LAZY_ADMIN), Some(s("./admin/admin.module")));
    assert_eq!(
        import_target("() => import(\"./a/b.module\").then(m => m.B)"),
        Some(s("./a/b.module"))
    );
    assert_eq!(import_target("import(`./t`)"), Some(s("./t")));
    assert_eq!(
        import_target("import(x); import('./second')"),
        Some(s("./second"))
    );
}

#[test]
fn import_target_without_call_syntax_is_none() {
    assert_eq!(import_target("m => m.AdminModule"), None);
    assert_eq!(import_target("import('./unterminated"), None);
    assert_eq!(import_target(""), None);
}

#[test]
fn path_parts() {
    assert_eq!(dir_of("/p/src/app/app-routing.module.ts"), "/p/src/app");
    assert_eq!(name_of("/p/src/app/feature.module"), "feature.module");
    assert_eq!(stem_of("feature.module"), "feature");
    assert_eq!(stem_of(".hidden"), ".hidden");
    assert_eq!(stem_of("admin"), "admin");
    assert_eq!(join("/p/src", "./x"), "/p/src/./x");
    assert_eq!(join("/p/src", "/abs/x"), "/abs/x");
}

#[test]
fn candidate_order_for_a_feature_module() {
    let base = candidate_base(
        "() => import('./feature/feature.module')",
        "/p/src/app/app-routing.module.ts",
    )
    .unwrap();
    assert_eq!(base, "/p/src/app/./feature/feature.module");
    assert_eq!(
        candidates(&base, false),
        vec![
            s("/p/src/app/feature/feature.module.ts"),
            s("/p/src/app/feature/feature-routing.module.ts"),
        ]
    );
    assert_eq!(
        candidates(&base, true),
        vec![
            s("/p/src/app/feature/feature.module.ts"),
            s("/p/src/app/feature/feature-routing.module.ts"),
            s("/p/src/app/feature/feature.module/feature.module-routing.module.ts"),
        ]
    );
    assert_eq!(candidates("/p/a/../b/x", false)[0], "/p/b/x.ts");
}

#[test]
fn first_existing_picks_the_earliest_present() {
    let cands = vec![s("a"), s("b"), s("c")];
    assert_eq!(first_existing(&cands, &vec![false, true, true]), Some(s("b")));
    assert_eq!(first_existing(&cands, &vec![false, false, false]), None);
}

#[test]
fn resolver_checks_candidates_in_order() {
    let raw = "import('./feature/feature.module')";
    let parent = "/p/src/app/app-routing.module.ts";
    let both = tree(
        vec![
            ("/p/src/app/feature/feature.module.ts", empty_module as fn() -> Vec<Node>),
            ("/p/src/app/feature/feature-routing.module.ts", empty_module),
        ],
        vec![],
    );
    assert_eq!(
        resolve_load_children_path(raw, parent, &both),
        Some(s("/p/src/app/feature/feature.module.ts"))
    );
    let paired = tree(
        vec![("/p/src/app/feature/feature-routing.module.ts", empty_module as fn() -> Vec<Node>)],
        vec![],
    );
    assert_eq!(
        resolve_load_children_path(raw, parent, &paired),
        Some(s("/p/src/app/feature/feature-routing.module.ts"))
    );
    let none = tree(vec![], vec![]);
    assert_eq!(resolve_load_children_path(raw, parent, &none), None);
}

#[test]
fn resolver_uses_routing_file_inside_a_directory() {
    let t = tree(
        vec![("/p/src/app/shop/shop-routing.module.ts", empty_module as fn() -> Vec<Node>)],
        vec!["/p/src/app/./shop"],
    );
    assert_eq!(
        resolve_load_children_path("import('./shop')", "/p/src/app/app.routes.ts", &t),
        Some(s("/p/src/app/shop/shop-routing.module.ts"))
    );
}

#[test]
fn lazy_admin_module_is_spliced_under_its_route() {
    let mut t = tree(
        vec![
            ("/p/app-routing.module.ts", app_module as fn() -> Vec<Node>),
            ("/p/admin/admin-routing.module.ts", admin_module),
        ],
        vec![],
    );
    let forest = resolve_forest(&vec![s("/p/app-routing.module.ts")], &mut t).unwrap();
    assert_eq!(forest.len(), 2);
    assert_eq!(forest[0].path, Some(s("home")));
    assert!(forest[0].children.is_empty());
    assert_eq!(forest[1].path, Some(s("admin")));
    assert_eq!(forest[1].children.len(), 1);
    assert_eq!(forest[1].children[0].path, Some(s("")));
    assert_eq!(forest[1].children[0].source_file, "/p/admin/admin-routing.module.ts");
    assert_eq!(forest[1].source_file, "/p/app-routing.module.ts");
}

#[test]
fn camel_case_list_name_is_not_captured_in_lazy_file() {
    let mut t = tree(
        vec![
            ("/p/app-routing.module.ts", app_module as fn() -> Vec<Node>),
            ("/p/admin/admin-routing.module.ts", admin_module_camel_case),
        ],
        vec![],
    );
    let forest = resolve_forest(&vec![s("/p/app-routing.module.ts")], &mut t).unwrap();
    assert_eq!(forest.len(), 2);
    assert!(forest[1].children.is_empty());
}

#[test]
fn text_without_import_leaves_children_as_written() {
    let mut route = RouteInfo {
        path: Some(s("x")),
        load_children: Some(s("m => m.XModule")),
        source_file: s("/p/x.ts"),
        children: vec![RouteInfo {
            path: Some(s("y")),
            load_children: None,
            source_file: s("/p/x.ts"),
            children: vec![],
        }],
    };
    let mut t = tree(vec![("/p/x.ts", app_module as fn() -> Vec<Node>)], vec![]);
    assert!(resolve_children_recursively(&mut route, &mut t).is_ok());
    assert_eq!(route.children.len(), 1);
    assert_eq!(route.children[0].path, Some(s("y")));
    assert!(t.loads.is_empty());
}

#[test]
fn missing_target_leaves_children_as_written() {
    let mut route = RouteInfo {
        path: Some(s("admin")),
        load_children: Some(s(LAZY_ADMIN)),
        source_file: s("/p/app-routing.module.ts"),
        children: vec![],
    };
    let mut t = tree(vec![], vec![]);
    assert!(resolve_children_recursively(&mut route, &mut t).is_ok());
    assert!(route.children.is_empty());
}

fn main_a() -> Vec<Node> {
    vec![register("forRoot", Node::Array(vec![route_obj("same", None)]))]
}

fn main_b() -> Vec<Node> {
    vec![register("forRoot", Node::Array(vec![route_obj("same", None)]))]
}

#[test]
fn main_files_are_concatenated_in_order_without_merging() {
    let mut t = tree(
        vec![
            ("/p/a/app.routes.ts", main_a as fn() -> Vec<Node>),
            ("/p/b/app.routes.ts", main_b),
        ],
        vec![],
    );
    let forest = resolve_forest(
        &vec![s("/p/b/app.routes.ts"), s("/p/a/app.routes.ts")],
        &mut t,
    )
    .unwrap();
    assert_eq!(forest.len(), 2);
    assert_eq!(forest[0].source_file, "/p/b/app.routes.ts");
    assert_eq!(forest[1].source_file, "/p/a/app.routes.ts");
    assert_eq!(forest[0].path, Some(s("same")));
    assert_eq!(forest[1].path, Some(s("same")));
}

fn self_loading() -> Vec<Node> {
    vec![register(
        "forRoot",
        Node::Array(vec![route_obj("loop", Some("import('./loop')"))]),
    )]
}

#[test]
fn lazy_load_back_to_an_active_file_is_a_cycle() {
    let mut t = tree(vec![("/p/loop.ts", self_loading as fn() -> Vec<Node>)], vec![]);
    match resolve_forest(&vec![s("/p/loop.ts")], &mut t) {
        Err(ResolveError::Cycle(p)) => assert_eq!(p, "/p/loop.ts"),
        other => panic!("unexpected result: {:?}", other),
    }
}

#[test]
fn unreadable_main_file_is_an_error() {
    let mut t = tree(vec![], vec![]);
    match resolve_forest(&vec![s("/p/missing.ts")], &mut t) {
        Err(ResolveError::Load(p, _)) => assert_eq!(p, "/p/missing.ts"),
        other => panic!("unexpected result: {:?}", other),
    }
}

#[test]
fn resolution_repeated_gives_identical_output() {
    let run = || {
        let mut t = tree(
            vec![
                ("/p/app-routing.module.ts", app_module as fn() -> Vec<Node>),
                ("/p/admin/admin-routing.module.ts", admin_module),
            ],
            vec![],
        );
        format!(
            "{:?}",
            resolve_forest(&vec![s("/p/app-routing.module.ts")], &mut t)
        )
    };
    assert_eq!(run(), run());
}

#[test]
fn main_routing_file_names() {
    assert!(is_main_routing_file("app-routing.module.ts"));
    assert!(is_main_routing_file("app-routing.ts"));
    assert!(is_main_routing_file("admin-routing.module.ts"));
    assert!(is_main_routing_file("app.routes.ts"));
    assert!(!is_main_routing_file("app.module.ts"));
    assert!(!is_main_routing_file("routes.js"));
}

#[test]
fn load_check_errors() {
    let active = vec![s("/p/a.ts"), s("/p/b.ts")];
    assert!(matches!(check_load(&s("/p/c.ts"), &active, 0), Some(ResolveError::TooDeep(p)) if p == "/p/c.ts"));
    assert!(matches!(check_load(&s("/p/b.ts"), &active, 3), Some(ResolveError::Cycle(p)) if p == "/p/b.ts"));
    assert!(check_load(&s("/p/c.ts"), &active, 3).is_none());
}

#[test]
fn failed_resolution_keeps_route_properties() {
    let mut route = RouteInfo {
        path: Some(s("loop")),
        load_children: Some(s("import('./loop')")),
        source_file: s("/p/loop.ts"),
        children: vec![],
    };
    let mut t = tree(vec![("/p/loop.ts", self_loading as fn() -> Vec<Node>)], vec![]);
    assert!(resolve_children_recursively(&mut route, &mut t).is_err());
    assert_eq!(route.path, Some(s("loop")));
    assert_eq!(route.load_children, Some(s("import('./loop')")));
    assert_eq!(route.source_file, "/p/loop.ts");
}

#[test]
fn no_main_files_give_an_empty_forest() {
    let mut t = tree(vec![], vec![]);
    let forest = resolve_forest(&vec![], &mut t).unwrap();
    assert!(forest.is_empty());
    assert!(t.loads.is_empty());
}

fn twice_lazy() -> Vec<Node> {
    vec![register(
        "forRoot",
        Node::Array(vec![route_obj("one", Some(LAZY_ADMIN)), route_obj("two", Some(LAZY_ADMIN))]),
    )]
}

#[test]
fn each_lazy_reference_gets_its_own_copy() {
    let mut t = tree(
        vec![
            ("/p/app.routes.ts", twice_lazy as fn() -> Vec<Node>),
            ("/p/admin/admin-routing.module.ts", admin_module),
        ],
        vec![],
    );
    let forest = resolve_forest(&vec![s("/p/app.routes.ts")], &mut t).unwrap();
    assert_eq!(forest.len(), 2);
    assert_eq!(forest[0].children.len(), 1);
    assert_eq!(forest[1].children.len(), 1);
    assert_eq!(format!("{:?}", forest[0].children), format!("{:?}", forest[1].children));
    assert_eq!(
        t.loads.iter().filter(|p| p.as_str() == "/p/admin/admin-routing.module.ts").count(),
        2
    );
}
