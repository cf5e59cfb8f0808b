use omni::condition::{ConditionNode, ConditionTree, ConditionType, CustomCondition, CustomRef, Pass, Partitioner};
use omni::ctx::OmnicomCtx;
use omni::format::{CustomFormat, Format, Generator};
use omni::http::Method;
use omni::passes::{Length, Segcount};
use omni::router::{Node, NodeDatum, Route, RouteFlags, RouteSeg};
use omni::walk::{walk_routes, DirListing, HandlerFile};

fn datum(file: &str, fname: &str) -> NodeDatum {
    NodeDatum {
        file: file.to_string(),
        fname: fname.to_string(),
        params: Vec::new(),
        ret: Vec::new(),
        ruflags: RouteFlags::empty(),
    }
}

fn route(segs: &[&str], file: &str, fname: &str, method: Method) -> Route {
    let mut path = im::Vector::new();
    for s in segs {
        path.push_back(RouteSeg::Static(s.to_string()));
    }
    Route::new(path, Node::Endpoint(datum(file, fname), method), im::Vector::new()).unwrap()
}

fn count_routes(n: &ConditionNode) -> usize {
    n.stored_routes.len() + n.children.iter().map(count_routes).sum::<usize>()
}

fn tree_count(t: &ConditionTree) -> usize {
    t.get_routes().len() + t.get_children().iter().map(count_routes).sum::<usize>()
}

fn three_routes() -> im::Vector<Route> {
    let mut rs = im::Vector::new();
    rs.push_back(route(&["a"], "routes/a/get.go", "GET", Method::GET()));
    rs.push_back(route(&["bb"], "routes/bb/get.go", "GET", Method::GET()));
    rs.push_back(route(&["cc"], "routes/cc/post.go", "POST", Method::POST()));
    rs
}

#[test]
fn walk_directory_is_the_path() {
    let mw = Node::Middleware(datum("routes/middleware.go", "MIDDLEWARE"));
    let root_get = Node::Endpoint(datum("routes/get.go", "GET"), Method::GET());
    let users_post = Node::Endpoint(datum("routes/users/post.go", "POST"), Method::POST());
    let id_get = Node::Endpoint(datum("routes/users/:id/get.go", "GET"), Method::GET());
    let mut mwv = im::Vector::new();
    mwv.push_back(mw);
    let mut rg = im::Vector::new();
    rg.push_back(root_get);
    let mut up = im::Vector::new();
    up.push_back(users_post);
    let mut ig = im::Vector::new();
    ig.push_back(id_get);
    let id_dir = DirListing {
        name: Some(":id".to_string()),
        files: vec![HandlerFile { path: "routes/users/:id/get.go".to_string(), nodes: Some(ig) }],
        dirs: vec![],
    };
    let users = DirListing {
        name: Some("users".to_string()),
        files: vec![HandlerFile { path: "routes/users/post.go".to_string(), nodes: Some(up) }],
        dirs: vec![id_dir],
    };
    let root = DirListing {
        name: None,
        files: vec![
            HandlerFile { path: "routes/middleware.go".to_string(), nodes: Some(mwv) },
            HandlerFile { path: "routes/broken.go".to_string(), nodes: None },
            HandlerFile { path: "routes/get.go".to_string(), nodes: Some(rg) },
        ],
        dirs: vec![users],
    };
    let ctx = OmnicomCtx::default();
    let rs = walk_routes(&ctx, root);
    assert_eq!(rs.len(), 3);
    assert_eq!(rs[0].get_path_str(), "/");
    assert_eq!(rs[0].method.bits(), Method::GET().bits());
    assert_eq!(rs[0].chain.len(), 2);
    assert!(rs[0].chain[0].is_middleware());
    assert_eq!(rs[1].get_path_str(), "/users");
    assert_eq!(rs[1].method.bits(), Method::POST().bits());
    assert_eq!(rs[1].chain.len(), 2);
    assert_eq!(rs[1].chain[0].get_name(), "MIDDLEWARE");
    assert_eq!(rs[2].get_path_str(), "/users/:id");
    assert!(matches!(&rs[2].path[1], RouteSeg::Dynamic(n) if n == "id"));
    assert_eq!(rs[2].chain[1].get_src_path(), "routes/users/:id/get.go");
}

#[test]
fn walk_later_subdirectory_first() {
    let a = Node::Endpoint(datum("routes/a/get.go", "GET"), Method::GET());
    let b = Node::Endpoint(datum("routes/b/get.go", "GET"), Method::GET());
    let mut av = im::Vector::new();
    av.push_back(a);
    let mut bv = im::Vector::new();
    bv.push_back(b);
    let root = DirListing {
        name: None,
        files: vec![],
        dirs: vec![
            DirListing {
                name: Some("a".to_string()),
                files: vec![HandlerFile { path: "routes/a/get.go".to_string(), nodes: Some(av) }],
                dirs: vec![],
            },
            DirListing {
                name: Some("b".to_string()),
                files: vec![HandlerFile { path: "routes/b/get.go".to_string(), nodes: Some(bv) }],
                dirs: vec![],
            },
            DirListing { name: None, files: vec![], dirs: vec![] },
        ],
    };
    let rs = walk_routes(&OmnicomCtx::default(), root);
    assert_eq!(rs.len(), 2);
    assert_eq!(rs[0].get_path_str(), "/b");
    assert_eq!(rs[1].get_path_str(), "/a");
}

#[test]
fn length_partition_groups_by_path_length() {
    let mut l = Length::default();
    let groups = l.partition(three_routes());
    assert_eq!(groups.len(), 2);
    assert!(groups[0].0 == ConditionType::Length(2));
    assert_eq!(groups[0].1.len(), 1);
    assert!(groups[1].0 == ConditionType::Length(3));
    assert_eq!(groups[1].1.len(), 2);
    assert_eq!(groups[1].1[0].get_path_str(), "/bb");
    assert_eq!(groups[1].1[1].get_path_str(), "/cc");
}

#[test]
fn segcount_partition_groups_by_segments() {
    let mut rs = three_routes();
    rs.push_back(route(&["a", "b"], "routes/a/b/get.go", "GET", Method::GET()));
    rs.push_back(route(&[], "routes/get.go", "GET", Method::GET()));
    let mut s = Segcount::default();
    let groups = s.partition(rs);
    assert_eq!(groups.len(), 3);
    assert!(groups[0].0 == ConditionType::SegmentCount(1));
    assert_eq!(groups[0].1.len(), 3);
    assert!(groups[1].0 == ConditionType::SegmentCount(2));
    assert!(groups[2].0 == ConditionType::SegmentCount(0));
}

#[test]
fn length_pass_moves_routes_below_the_root() {
    let mut t = ConditionTree::new(three_routes());
    assert_eq!(t.get_routes().len(), 3);
    t.run_pass_type::<Length>();
    assert_eq!(t.get_routes().len(), 0);
    let cs = t.get_children();
    assert_eq!(cs.len(), 2);
    assert!(cs[0].condition == ConditionType::Length(2));
    assert_eq!(cs[0].stored_routes.len(), 1);
    assert!(cs[1].condition == ConditionType::Length(3));
    assert_eq!(cs[1].stored_routes.len(), 2);
    assert_eq!(tree_count(&t), 3);
}

#[test]
fn passes_compose_keep_every_route() {
    let mut rs = three_routes();
    rs.push_back(route(&["a", "b"], "routes/a/b/get.go", "GET", Method::GET()));
    let mut t = ConditionTree::new(rs);
    t.run_pass_type::<Length>();
    t.run_pass_type::<Segcount>();
    assert_eq!(t.get_routes().len(), 0);
    assert_eq!(tree_count(&t), 4);
    let cs = t.get_children();
    assert!(cs[0].condition == ConditionType::SegmentCount(1));
    assert!(cs[1].condition == ConditionType::SegmentCount(2));
    assert_eq!(count_routes(&cs[0]), 3);
    assert_eq!(count_routes(&cs[1]), 1);
    assert!(cs[0].stored_routes.is_empty());
    assert_eq!(cs[0].children.len(), 2);
    assert!(cs[0].children[0].condition == ConditionType::Length(2));
    assert_eq!(cs[0].children[0].stored_routes.len(), 1);
    assert!(cs[0].children[1].condition == ConditionType::Length(3));
    assert_eq!(cs[0].children[1].stored_routes.len(), 2);
    assert_eq!(cs[1].children.len(), 1);
    assert!(cs[1].children[0].condition == ConditionType::Length(4));
}

#[test]
fn third_pass_inserts_a_new_top_level() {
    let mut rs = three_routes();
    rs.push_back(route(&["a", "b"], "routes/a/b/get.go", "GET", Method::GET()));
    let mut t = ConditionTree::new(rs);
    t.run_pass_type::<Length>();
    t.run_pass_type::<Segcount>();
    t.run_pass_type::<Length>();
    assert_eq!(tree_count(&t), 4);
    let cs = t.get_children();
    assert_eq!(cs.len(), 3);
    assert!(cs[0].condition == ConditionType::Length(2));
    assert!(cs[1].condition == ConditionType::Length(3));
    assert!(cs[2].condition == ConditionType::Length(4));
    assert_eq!(cs[0].children.len(), 1);
    assert!(cs[0].children[0].condition == ConditionType::SegmentCount(1));
    assert_eq!(cs[0].children[0].children.len(), 1);
    assert!(cs[0].children[0].children[0].condition == ConditionType::Length(2));
    assert_eq!(cs[0].children[0].children[0].stored_routes.len(), 1);
    assert_eq!(count_routes(&cs[1]), 2);
    assert!(cs[1].children[0].condition == ConditionType::SegmentCount(1));
    assert!(cs[1].children[0].children[0].condition == ConditionType::Length(3));
    assert!(cs[2].children[0].condition == ConditionType::SegmentCount(2));
    assert!(cs[2].children[0].children[0].condition == ConditionType::Length(4));
    assert_eq!(cs[2].children[0].children[0].stored_routes.len(), 1);
}

#[test]
fn pass_run_directly() {
    let mut t = ConditionTree::new(three_routes());
    let mut p = Length::default();
    p.run(&mut t);
    assert_eq!(t.get_children().len(), 2);
}

#[test]
fn condition_equality_and_type() {
    assert!(ConditionType::Length(3) == ConditionType::Length(3));
    assert!(ConditionType::Length(3) != ConditionType::Length(4));
    assert!(ConditionType::Length(3) != ConditionType::SegmentCount(3));
    assert!(ConditionType::Prefix("/a".to_string()) == ConditionType::Prefix("/a".to_string()));
    let c1 = ConditionType::Custom(CustomRef { id: 7, kind: "Host".to_string() });
    let c2 = ConditionType::Custom(CustomRef { id: 7, kind: "Other".to_string() });
    let c3 = ConditionType::Custom(CustomRef { id: 8, kind: "Host".to_string() });
    assert!(c1 == c2);
    assert!(c1 != c3);
    assert_eq!(ConditionType::Length(1).get_type(), "Length");
    assert_eq!(ConditionType::SegmentCount(1).get_type(), "SegmentCount");
    assert_eq!(ConditionType::Prefix("x".to_string()).get_type(), "Prefix");
    assert_eq!(c3.get_type(), "Host");
}

#[test]
fn tree_mutable_access() {
    let mut t = ConditionTree::new(im::Vector::new());
    t.get_routes_mut().push_back(route(&["a"], "routes/a/get.go", "GET", Method::GET()));
    assert_eq!(t.get_routes().len(), 1);
    t.run_pass_type::<Length>();
    t.get_children_mut().clear();
    assert_eq!(t.get_children().len(), 0);
}

#[test]
fn format_prints_length_decision() {
    let mut t = ConditionTree::new(im::Vector::new());
    t.get_routes_mut().push_back(route(&["a"], "routes/a/get.go", "GET", Method::GET()));
    t.get_routes_mut().push_back(route(&["bb"], "routes/bb/get.go", "GET", Method::GET()));
    t.run_pass_type::<Length>();
    let mut g = Generator::new(t, String::new());
    g.default_to::<Format>().unwrap();
    let expected = "#[inline(always)]\npub fn route(method: u8, route: &[u8]) {\n    let l = route.len();\n    match l {\n        3 => {\n            match route {\n                b\"/bb\" => {},\n                _ => {},\n            }\n        },\n        2 => {\n            match route {\n                b\"/a\" => {},\n                _ => {},\n            }\n        },\n        _ => {}\n    }\n}\n";
    assert_eq!(g.writer, expected);
    assert_eq!(g.indent, 0);
}

#[test]
fn format_unpartitioned_routes() {
    let mut rs = im::Vector::new();
    rs.push_back(route(&["x"], "routes/x/get.go", "GET", Method::GET()));
    let t = ConditionTree::new(rs);
    let mut g = Generator::new(t, String::from("// head\n"));
    let mut f = Format;
    g.to(&mut f).unwrap();
    let expected = "// head\n#[inline(always)]\npub fn route(method: u8, route: &[u8]) {\n    match route {\n        b\"/x\" => {},\n        _ => {},\n    }\n}\n";
    assert_eq!(g.writer, expected);
}

#[test]
fn format_routes_and_levels_below() {
    let mut rs = im::Vector::new();
    rs.push_back(route(&["x"], "routes/x/get.go", "GET", Method::GET()));
    let mut node_routes = im::Vector::new();
    node_routes.push_back(route(&["yy"], "routes/yy/get.go", "GET", Method::GET()));
    let child = ConditionNode { condition: ConditionType::Length(3), children: vec![], stored_routes: node_routes };
    let mut out = String::new();
    Format::format_r(&mut out, 1, &rs, &vec![child], &HostCondition).unwrap();
    let expected = "    match route {\n        b\"/x\" => {},\n        _ => {},\n        _ => {\n            let l = route.len();\n            match l {\n                3 => {\n                    match route {\n                        b\"/yy\" => {},\n                        _ => {},\n                    }\n                },\n                _ => {}\n            }\n        }\n";
    assert_eq!(out, expected);
}

struct HostCondition;

impl CustomCondition for HostCondition {
    fn get_type(&self) -> String {
        "Host".to_string()
    }

    fn gen_code(&self, nodes: &Vec<ConditionNode>, indent: usize, writer: &mut String) -> Result<usize, String> {
        writer.push_str(&format!("{}match host {{ /* {} levels */ }}\n", "    ".repeat(indent), nodes.len()));
        Ok(indent + 1)
    }
}

#[test]
fn gen_code_hands_custom_conditions_on() {
    let c = ConditionType::Custom(CustomRef { id: 1, kind: "Host".to_string() });
    let n = ConditionNode { condition: c.clone(), children: vec![], stored_routes: im::Vector::new() };
    let mut out = String::from("x\n");
    let r = c.gen_code(&vec![n.clone(), n], 1, &mut out, &HostCondition);
    assert_eq!(r.unwrap(), 2);
    assert_eq!(out, "x\n    match host { /* 2 levels */ }\n");
    assert_eq!(HostCondition.get_type(), "Host");
    let mut empty = String::new();
    assert_eq!(c.gen_code(&vec![], 1, &mut empty, &HostCondition).unwrap_err(), "No Nodes generate code for");
    assert_eq!(empty, "");
}

#[test]
fn gen_code_needs_nodes() {
    let mut out = String::new();
    let r = ConditionType::Length(1).gen_code(&vec![], 0, &mut out, &HostCondition);
    assert_eq!(r.unwrap_err(), "No Nodes generate code for");
    assert_eq!(out, "");
    let n = ConditionNode { condition: ConditionType::Length(1), children: vec![], stored_routes: im::Vector::new() };
    let r = ConditionType::Length(1).gen_code(&vec![n], 2, &mut out, &HostCondition);
    assert_eq!(r.unwrap(), 2);
    assert_eq!(out, "        let l = route.len();\n        match l {\n            1 => {\n            },\n            _ => {}\n        }\n");
}

#[test]
fn generator_indent() {
    let mut s = String::new();
    Generator::indent(2, &mut s);
    assert_eq!(s, "        ");
}

#[test]
fn walk_skips_files_that_failed_to_parse() {
    let listing = |with_broken: bool| {
        let mut g = im::Vector::new();
        g.push_back(Node::Endpoint(datum("routes/get.go", "GET"), Method::GET()));
        let mut files = vec![HandlerFile { path: "routes/get.go".to_string(), nodes: Some(g) }];
        if with_broken {
            files.insert(0, HandlerFile { path: "routes/broken.go".to_string(), nodes: None });
        }
        DirListing { name: None, files, dirs: vec![] }
    };
    let ctx = OmnicomCtx::default();
    let a = walk_routes(&ctx, listing(true));
    let b = walk_routes(&ctx, listing(false));
    assert_eq!(a.len(), 1);
    assert_eq!(b.len(), 1);
    assert_eq!(a[0].get_path_str(), b[0].get_path_str());
    assert_eq!(a[0].chain.len(), b[0].chain.len());
}

#[test]
fn gen_code_keeps_the_given_order() {
    let level = |c: ConditionType| ConditionNode { condition: c, children: vec![], stored_routes: im::Vector::new() };
    let nodes = vec![level(ConditionType::Length(2)), level(ConditionType::SegmentCount(1)), level(ConditionType::Length(3))];
    let mut out = String::new();
    let r = ConditionType::Length(0).gen_code(&nodes, 0, &mut out, &HostCondition);
    assert_eq!(r.unwrap(), 0);
    assert_eq!(out, "let l = route.len();\nmatch l {\n    2 => {\n    },\n    3 => {\n    },\n    _ => {}\n}\n");
}

struct FailingCondition;

impl CustomCondition for FailingCondition {
    fn get_type(&self) -> String {
        "Failing".to_string()
    }

    fn gen_code(&self, _nodes: &Vec<ConditionNode>, _indent: usize, _writer: &mut String) -> Result<usize, String> {
        Err("no decision".to_string())
    }
}

fn custom_level(id: u64, kind: &str) -> ConditionNode {
    ConditionNode {
        condition: ConditionType::Custom(CustomRef { id, kind: kind.to_string() }),
        children: vec![],
        stored_routes: im::Vector::new(),
    }
}

#[test]
fn format_hands_custom_levels_on() {
    let mut out = String::new();
    Format::format_r(&mut out, 1, &im::Vector::new(), &vec![custom_level(1, "MyCond")], &HostCondition).unwrap();
    assert_eq!(out, "    match host { /* 1 levels */ }\n");
}

#[test]
fn format_prints_each_kind_of_level() {
    let mut rs = im::Vector::new();
    rs.push_back(route(&["x"], "routes/x/get.go", "GET", Method::GET()));
    let mut node_routes = im::Vector::new();
    node_routes.push_back(route(&["yy"], "routes/yy/get.go", "GET", Method::GET()));
    let three = ConditionNode { condition: ConditionType::Length(3), children: vec![], stored_routes: node_routes };
    let four = ConditionNode { condition: ConditionType::Length(4), children: vec![], stored_routes: im::Vector::new() };
    let mut out = String::new();
    Format::format_r(&mut out, 1, &rs, &vec![three, custom_level(1, "MyCond"), four], &HostCondition).unwrap();
    let expected = "    match route {\n        b\"/x\" => {},\n        _ => {},\n        _ => {\n            let l = route.len();\n            match l {\n                4 => {\n                },\n                3 => {\n                    match route {\n                        b\"/yy\" => {},\n                        _ => {},\n                    }\n                },\n                _ => {}\n            }\n            match host { /* 1 levels */ }\n            }\n";
    assert_eq!(out, expected);
}

#[test]
fn format_passes_on_a_custom_failure() {
    let mut out = String::new();
    let r = Format::format_r(&mut out, 0, &im::Vector::new(), &vec![custom_level(2, "Failing")], &FailingCondition);
    assert_eq!(r.unwrap_err(), "no decision");
}

#[test]
fn gen_code_prints_custom_levels_below_a_length_level() {
    let below = ConditionNode { condition: ConditionType::Length(2), children: vec![custom_level(1, "MyCond")], stored_routes: im::Vector::new() };
    let mut out = String::new();
    let r = ConditionType::Length(2).gen_code(&vec![below], 0, &mut out, &HostCondition);
    assert_eq!(r.unwrap(), 0);
    assert_eq!(out, "let l = route.len();\nmatch l {\n    2 => {\n        match host { /* 1 levels */ }\n    },\n    _ => {}\n}\n");
}

#[test]
fn generator_prints_custom_levels() {
    let mut t = ConditionTree::new(im::Vector::new());
    t.get_children_mut().push_back(custom_level(1, "MyCond"));
    let mut g = Generator::new(t, String::new());
    let mut f = CustomFormat { custom: HostCondition };
    g.to(&mut f).unwrap();
    assert_eq!(g.writer, "#[inline(always)]\npub fn route(method: u8, route: &[u8]) {\n    match host { /* 1 levels */ }\n}\n");
    assert_eq!(g.indent, 0);
    assert_eq!(g.tree.get_children().len(), 1);
}
