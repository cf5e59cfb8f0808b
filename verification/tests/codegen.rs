use omni::condition::{ConditionTree, ConditionType};
use omni::ctx::OmnicomCtx;
use omni::gentree::{GenNode, GenRoute, GenTree};
use omni::http::Method;
use omni::languages::adapter::{AdapterEmit, AdapterStackCtx, InAdapter, OutAdapter, OutWriteContext};
use omni::languages::go::GoAdapter;
use omni::languages::rust::RustAdapter;
use omni::passes::Length;
use omni::router::{Node, NodeDatum, Route, RouteFlags, RouteSeg};
use omni::stack::{push_row, stack_header_text, StackGenerator, STACK_FOOTER, STACK_LOGO, STACK_RULE};
use sha3::digest::{ExtendableOutput, Update, XofReader};
use sha3::Digest;

fn datum(file: &str, fname: &str) -> NodeDatum {
    NodeDatum {
        file: file.to_string(),
        fname: fname.to_string(),
        params: Vec::new(),
        ret: Vec::new(),
        ruflags: RouteFlags::empty(),
    }
}

fn route(segs: &[&str], file: &str, fname: &str, method: Method) -> Route {
    let mut path = im::Vector::new();
    for s in segs {
        path.push_back(RouteSeg::Static(s.to_string()));
    }
    Route::new(path, Node::Endpoint(datum(file, fname), method), im::Vector::new()).unwrap()
}

fn sha3(data: &[u8]) -> Vec<u8> {
    sha3::Sha3_256::digest(data).to_vec()
}

fn handle_of(file: &str, fname: &str) -> String {
    format!("routes_{}_{}", fname, const_hex::encode(sha3(format!("{}-{}", file, fname).as_bytes())))
}

const SRC: &[u8] = b"package routes";

fn emit_hash_of(file: &str, fname: &str, content: &[u8]) -> Vec<u8> {
    let h = handle_of(file, fname);
    let mut b = Vec::new();
    b.extend_from_slice(file.as_bytes());
    b.extend_from_slice(b"unsafe {");
    b.extend_from_slice(format!("let res = {}();", h).as_bytes());
    b.extend_from_slice(b"}");
    b.extend_from_slice(content);
    sha3(&b)
}

fn stack_id_of(nodes: &[(&str, &str)]) -> String {
    let mut all = Vec::new();
    for (f, n) in nodes {
        all.extend_from_slice(&emit_hash_of(f, n, SRC));
    }
    const_hex::encode(sha3(&all))[..16].to_string()
}

fn gen_route(path: &str, stacks: &[(Method, &str)]) -> GenRoute {
    let mut g = GenRoute::new(path.to_string());
    for (m, id) in stacks {
        g.push_stack(*m, id.to_string());
    }
    g
}

#[test]
fn format_binary_groups_of_four() {
    assert_eq!(RustAdapter::format_binary(5u32), "0b0000_0000_0000_0000_0000_0000_0000_0101");
    assert_eq!(RustAdapter::format_binary(0u32), "0b0000_0000_0000_0000_0000_0000_0000_0000");
    assert_eq!(RustAdapter::format_binary(u32::MAX), "0b1111_1111_1111_1111_1111_1111_1111_1111");
    assert_eq!(RustAdapter::format_binary(0x8000_0001u32), "0b1000_0000_0000_0000_0000_0000_0000_0001");
    assert_eq!(RustAdapter::format_binary(5u8), "0b0000_0101");
    assert_eq!(RustAdapter::format_binary(0x1F5u16), "0b0000_0001_1111_0101");
    assert_eq!(RustAdapter::format_binary(1u32), "0b0000_0000_0000_0000_0000_0000_0000_0001");
    let big = RustAdapter::format_binary(u64::MAX - 1);
    assert_eq!(big.len(), 2 + 64 + 15);
    assert!(big.ends_with("1111_1110"));
    let digits: String = big[2..].chars().filter(|c| *c != '_').collect();
    assert_eq!(u64::from_str_radix(&digits, 2).unwrap(), u64::MAX - 1);
}

#[test]
fn generate_route_dispatches_on_method() {
    let mut ra = RustAdapter::default();
    let mut w = OutWriteContext { writer: String::new(), w_indent: 1, deps: vec![] };
    let gr = gen_route("/x", &[(Method::GET(), "s1"), (Method::POST(), "s2")]);
    let r = ra.generate_route(&mut w, &gr);
    assert_eq!(r.unwrap(), 1);
    assert_eq!(w.deps, vec!["s1".to_string()]);
    let expected = "    if method & 0b0000_0000_0000_0000_0000_0000_0000_0001 {\n        let res = s1.__s_s1();\n    } else if method & 0b0000_0000_0000_0000_0000_0000_0000_0010 {\n        let res = s2.__s_s2();\n    } else {\n        // Handle 405 Here\n    }\n";
    assert_eq!(w.writer, expected);
}

#[test]
fn generate_route_without_stack_fails() {
    let mut ra = RustAdapter::default();
    let mut w = OutWriteContext { writer: String::new(), w_indent: 0, deps: vec![] };
    let gr = GenRoute::new("/x".to_string());
    let r = ra.generate_route(&mut w, &gr);
    assert_eq!(r.unwrap_err(), "Unable to generate stack router");
    assert_eq!(w.writer, "");
    assert!(w.deps.is_empty());
}

#[test]
fn generate_router_file() {
    let mut ra = RustAdapter::default();
    let mut ctx = OmnicomCtx::default();
    let mut routes = im::Vector::new();
    routes.push_back(gen_route("/", &[(Method::GET(), "abc")]));
    let tree = GenTree { node: GenNode { condition: None, children: vec![], routes } };
    let out = ra.generate(&mut ctx, &tree).unwrap();
    let expected = "mod abc;\n\npub fn route(method: u32, route: &[u8]) {\n    match route {\n        b\"/\" => {,\n            if method & 0b0000_0000_0000_0000_0000_0000_0000_0001 {\n                let res = abc.__s_abc();\n            } else {\n                // Handle 405 Here\n            }\n        }\n        _ => {\n        // Handle 404 here\n        },\n    }\n}\n";
    assert_eq!(out, expected);
}

#[test]
fn generate_empty_tree() {
    let mut ra = RustAdapter::default();
    let mut ctx = OmnicomCtx::default();
    let tree = GenTree { node: GenNode { condition: None, children: vec![], routes: im::Vector::new() } };
    let out = ra.generate(&mut ctx, &tree).unwrap();
    assert_eq!(out, "pub fn route(method: u32, route: &[u8]) {\n}\n");
}

#[test]
fn generate_length_levels_last_first() {
    let mut ra = RustAdapter::default();
    let mut ctx = OmnicomCtx::default();
    let mut r2 = im::Vector::new();
    r2.push_back(gen_route("/a", &[(Method::GET(), "s1")]));
    let mut r3 = im::Vector::new();
    r3.push_back(gen_route("/bb", &[(Method::GET(), "s2")]));
    let children = vec![
        GenNode { condition: Some(ConditionType::Length(2)), children: vec![], routes: r2 },
        GenNode { condition: Some(ConditionType::Length(3)), children: vec![], routes: r3 },
    ];
    let tree = GenTree { node: GenNode { condition: None, children, routes: im::Vector::new() } };
    let out = ra.generate(&mut ctx, &tree).unwrap();
    let expected = "mod s2;\nmod s1;\n\npub fn route(method: u32, route: &[u8]) {\n    let l = route.len();\n    match l {\n        3 => {\n            match route {\n                b\"/bb\" => {,\n                    if method & 0b0000_0000_0000_0000_0000_0000_0000_0001 {\n                        let res = s2.__s_s2();\n                    } else {\n                        // Handle 405 Here\n                    }\n                }\n                _ => {\n                // Handle 404 here\n                },\n            }\n        },\n        2 => {\n            match route {\n                b\"/a\" => {,\n                    if method & 0b0000_0000_0000_0000_0000_0000_0000_0001 {\n                        let res = s1.__s_s1();\n                    } else {\n                        // Handle 405 Here\n                    }\n                }\n                _ => {\n                // Handle 404 here\n                },\n            }\n        },\n        _ => {\n        // Handle 404 here\n        },\n    }\n}\n";
    assert_eq!(out, expected);
}

#[test]
fn generate_cond_without_levels() {
    let mut ra = RustAdapter::default();
    let mut ctx = OmnicomCtx::default();
    let mut w = OutWriteContext { writer: String::from("x"), w_indent: 3, deps: vec![] };
    let r = ra.generate_cond(&mut ctx, &mut w, &vec![]);
    assert_eq!(r.unwrap(), 3);
    assert_eq!(w.writer, "x");
}

#[test]
fn generate_cond_keeps_the_given_order_and_skips_other_kinds() {
    let mut ra = RustAdapter::default();
    let mut ctx = OmnicomCtx::default();
    let level = |c: ConditionType| GenNode { condition: Some(c), children: vec![], routes: im::Vector::new() };
    let nodes = vec![level(ConditionType::Length(2)), level(ConditionType::SegmentCount(1)), level(ConditionType::Length(3))];
    let mut w = OutWriteContext { writer: String::new(), w_indent: 1, deps: vec![] };
    let r = ra.generate_cond(&mut ctx, &mut w, &nodes);
    assert_eq!(r.unwrap(), 1);
    assert_eq!(
        w.writer,
        "    let l = route.len();\n    match l {\n        2 => {\n        },\n        3 => {\n        },\n        _ => {\n        // Handle 404 here\n        },\n    }\n"
    );
}

#[test]
fn generate_fails_for_a_route_without_stack() {
    let mut ra = RustAdapter::default();
    let mut ctx = OmnicomCtx::default();
    let mut routes = im::Vector::new();
    routes.push_back(GenRoute::new("/".to_string()));
    let tree = GenTree { node: GenNode { condition: None, children: vec![], routes } };
    assert_eq!(ra.generate(&mut ctx, &tree).unwrap_err(), "Unable to generate stack router");
}

#[test]
fn go_adapter_handles_go_sources() {
    let g = GoAdapter::default();
    assert!(g.handles("routes/get.go"));
    assert!(!g.handles("routes/get.rs"));
    assert!(!g.handles("routes/go"));
    assert!(!g.handles("routes/.go"));
}

#[test]
fn go_emit_calls_the_handle() {
    let g = GoAdapter::default();
    let mut ctx = OmnicomCtx::default();
    let mut w = String::new();
    let mut actx = AdapterStackCtx::new();
    let n = Node::Endpoint(datum("routes/get.go", "GET"), Method::GET());
    let (i, em) = g.emit(&mut ctx, &mut w, &mut actx, 1, &n, b"package routes");
    let h = handle_of("routes/get.go", "GET");
    assert_eq!(i, 1);
    assert_eq!(w, format!("    unsafe {{\n        let res = {}();\n    }}\n", h));
    assert_eq!(em.get_version(), "1");
    assert_eq!(em.get_func_name(), "GET");
    assert_eq!(em.get_ctx("handle").unwrap(), &h);
    assert_eq!(em.get_hash(), &emit_hash_of("routes/get.go", "GET", SRC));
    assert_eq!(actx.ffi, vec![h]);
    let mut tag = [0u8; 8];
    let mut x = sha3::Shake128::default();
    x.update(b"package routes");
    x.finalize_xof().read(&mut tag);
    let name = format!("{}.go", const_hex::encode(tag));
    assert_eq!(actx.get_files().get(&name).unwrap(), &b"package routes".to_vec());
}

#[test]
fn go_emit_hash_covers_the_source() {
    let g = GoAdapter::default();
    let mut ctx = OmnicomCtx::default();
    let n = Node::Endpoint(datum("routes/get.go", "GET"), Method::GET());
    let mut w1 = String::new();
    let mut a1 = AdapterStackCtx::new();
    let (_, e1) = g.emit(&mut ctx, &mut w1, &mut a1, 1, &n, b"package routes\nfunc GET(ctx OmniContext) {}\n");
    let mut w2 = String::new();
    let mut a2 = AdapterStackCtx::new();
    let (_, e2) = g.emit(&mut ctx, &mut w2, &mut a2, 1, &n, b"package routes\nfunc GET(ctx OmniContext) { x() }\n");
    let mut w3 = String::new();
    let mut a3 = AdapterStackCtx::new();
    let (_, e3) = g.emit(&mut ctx, &mut w3, &mut a3, 1, &n, b"package routes\nfunc GET(ctx OmniContext) {}\n");
    assert_ne!(e1.get_hash(), e2.get_hash());
    assert_eq!(e1.get_hash(), e3.get_hash());
    assert_eq!(w1, w2);
}

#[test]
fn go_configure_build_needs_stacks() {
    let mut g = GoAdapter::default();
    let mut ctx = OmnicomCtx::default();
    assert_eq!(g.configure_build(&mut ctx, &vec![]).unwrap_err(), "Stack list is empty");
}

#[test]
fn go_configure_build_exports_handles() {
    let mut g = GoAdapter::default();
    let mut ctx = OmnicomCtx::default();
    let mut e = AdapterEmit::new("routes/get.go", "GET".to_string(), "1".to_string(), vec![1]);
    e.set_ctx("handle", "h1");
    let out = g.configure_build(&mut ctx, &vec![("s1".to_string(), vec![e])]).unwrap();
    let expected = "package main\nimport (\n    \"C\"\n    \"fmt\"\n    __s1 \"omni/s1\"\n)\n\n//export h1\nfunc h1() {\n    __s1.GET(__s1.OmniContext{});\n}\n\n\n\nfunc main() {\n    fmt.Println(\"dont run me im sensitive\")\n}\n";
    assert_eq!(out, expected);
}

#[test]
fn go_configure_build_uses_the_module_name() {
    let mut g = GoAdapter { module_name: "example.com/app".to_string() };
    let mut ctx = OmnicomCtx::default();
    let mut e = AdapterEmit::new("routes/get.go", "GET".to_string(), "1".to_string(), vec![1]);
    e.set_ctx("handle", "h1");
    let out = g.configure_build(&mut ctx, &vec![("s1".to_string(), vec![e])]).unwrap();
    assert!(out.contains("    __s1 \"example.com/app/s1\"\n"));
    assert_eq!(GoAdapter::default().module_name, "omni");
}

#[test]
fn header_rows_pad_and_cut() {
    let mut s = String::new();
    push_row(&mut s, "abc");
    assert_eq!(s, format!("| abc{} |\n", " ".repeat(73)));
    let mut t = String::new();
    push_row(&mut t, &"x".repeat(80));
    assert_eq!(t, format!("| {}... |\n", "x".repeat(73)));
    let mut u = String::new();
    push_row(&mut u, &"y".repeat(76));
    assert_eq!(u, format!("| {} |\n", "y".repeat(76)));
    assert_eq!(t.chars().count(), 81);
}

#[test]
fn stack_missing_adapter() {
    let mut sg = StackGenerator::default();
    sg.add_source("routes/get.go".to_string(), b"package routes".to_vec());
    let mut ctx = OmnicomCtx::default();
    let r = route(&[], "routes/get.go", "GET", Method::GET());
    let mut gr = GenRoute::new("/".to_string());
    let e = sg.generate_stack(&mut ctx, &r, &mut gr).unwrap_err();
    assert_eq!(e, "Missing LanguageAdaptor for source path: routes/get.go");
    assert_eq!(gr.get_stacks().len(), 0);
    assert!(sg.get_files().is_empty());
}

#[test]
fn stack_source_of_other_language() {
    let mut sg = StackGenerator::default();
    sg.register_default_adapter();
    sg.add_source("routes/get.rs".to_string(), b"fn get() {}".to_vec());
    let mut ctx = OmnicomCtx::default();
    let r = route(&[], "routes/get.rs", "GET", Method::GET());
    let mut gr = GenRoute::new("/".to_string());
    let e = sg.generate_stack(&mut ctx, &r, &mut gr).unwrap_err();
    assert_eq!(e, "Missing LanguageAdaptor for source path: routes/get.rs");
}

#[test]
fn stack_missing_source() {
    let mut sg = StackGenerator::default();
    sg.register_adapter(GoAdapter::default());
    let mut ctx = OmnicomCtx::default();
    let r = route(&[], "routes/get.go", "GET", Method::GET());
    let mut gr = GenRoute::new("/".to_string());
    let e = sg.generate_stack(&mut ctx, &r, &mut gr).unwrap_err();
    assert_eq!(e, "Unable to read source: routes/get.go");
}

#[test]
fn stack_generated_for_route() {
    let mut sg = StackGenerator::default();
    sg.register_default_adapter();
    sg.set_target("x86_64-unknown-linux-gnu".to_string());
    sg.set_time("2024-01-01T00:00:00+00:00".to_string());
    sg.add_source("routes/users/get.go".to_string(), b"package routes".to_vec());
    let mut ctx = OmnicomCtx::default();
    let r = route(&["users"], "routes/users/get.go", "GET", Method::GET());
    let mut gr = GenRoute::new("/users".to_string());
    sg.generate_stack(&mut ctx, &r, &mut gr).unwrap();
    let id = stack_id_of(&[("routes/users/get.go", "GET")]);
    assert_eq!(id.len(), 16);
    assert_eq!(gr.get_stacks().len(), 1);
    assert_eq!(gr.get_stacks()[0].0.bits(), Method::GET().bits());
    assert_eq!(gr.get_stacks()[0].1, id);
    let files = sg.get_files();
    assert_eq!(files.len(), 1);
    assert_eq!(files[0].id, id);
    let text = &files[0].text;
    assert!(text.starts_with(STACK_LOGO));
    assert!(text.contains(&format!("| Stack ID:  {}{} |\n", id, " ".repeat(76 - 11 - 16))));
    assert!(text.contains("| TARGET ROUTE: Method(GET) /users"));
    assert!(text.contains("| CHAIN LENGTH: 1 (0 Middleware, 1 Endpoint)"));
    assert!(text.contains("|  [01] ENDPOINT -> routes/users/get.go"));
    assert!(text.contains("|       Func:  GET | Flags: None"));
    assert!(text.contains("|       Args:  None"));
    assert!(text.contains("|  [01] Layer: routes/users/get.go (END)"));
    assert!(text.contains("|       Version: 1"));
    assert!(text.contains("| Target: x86_64-unknown-linux-gnu"));
    assert!(text.contains("| Generated: 2024-01-01T00:00:00+00:00 "));
    let h = handle_of("routes/users/get.go", "GET");
    let hash = const_hex::encode(emit_hash_of("routes/users/get.go", "GET", SRC));
    assert!(text.contains(&format!("|     Hash: {}", hash)));
    assert!(text.contains(&format!("extern \"C\" {{\n    {};\n}}\n\npub fn {}() {{\n\n", h, id)));
    assert!(text.ends_with(&format!(
        "    // Generated via GoAdapter V0.0.1\n    unsafe {{\n        let res = {}();\n    }}\n}}\n",
        h
    )));
}

#[test]
fn stacks_are_content_addressed() {
    let mut sg = StackGenerator::default();
    sg.register_default_adapter();
    sg.add_source("routes/get.go".to_string(), b"a".to_vec());
    let mut ctx = OmnicomCtx::default();
    let r1 = route(&["x"], "routes/get.go", "GET", Method::GET());
    let r2 = route(&["y", "z"], "routes/get.go", "GET", Method::POST());
    let mut g1 = GenRoute::new("/x".to_string());
    let mut g2 = GenRoute::new("/y/z".to_string());
    sg.generate_stack(&mut ctx, &r1, &mut g1).unwrap();
    sg.generate_stack(&mut ctx, &r2, &mut g2).unwrap();
    assert_eq!(g1.get_stacks()[0].1, g2.get_stacks()[0].1);
    assert_eq!(sg.get_files().len(), 2);
}

#[test]
fn stack_header_with_middleware_and_params() {
    let mut d = datum("routes/mw.go", "Auth");
    d.params.push(("ctx".to_string(), "OmniContext".to_string()));
    d.params.push(("n".to_string(), "int".to_string()));
    d.ret.push("string".to_string());
    d.ret.push("error".to_string());
    d.ruflags = RouteFlags::DB().union(RouteFlags::Hot());
    let mut chain = im::Vector::new();
    chain.push_back(Node::Middleware(d));
    let r = Route::new(im::Vector::new(), Node::Endpoint(datum("routes/get.go", "GET"), Method::GET()), chain).unwrap();
    let e1 = AdapterEmit::new("routes/mw.go", "Auth".to_string(), "1".to_string(), vec![0x0f]);
    let text = stack_header_text("0123456789abcdef", "T", "tgt", &r, &vec![e1], &vec!["f1".to_string()]);
    assert!(text.starts_with(STACK_LOGO));
    assert!(text.contains(STACK_RULE));
    assert!(text.contains("| CHAIN LENGTH: 2 (1 Middleware, 1 Endpoint)"));
    assert!(text.contains("|  [01] MIDDLEWARE -> routes/mw.go"));
    assert!(text.contains("|       Func:  Auth | Flags: RouteFlags(DB | Hot)"));
    assert!(text.contains("|       Args:  (ctx: OmniContext, n: int)"));
    assert!(text.contains("|       Ret:   string, error"));
    assert!(text.contains("|  [02] ENDPOINT -> routes/get.go"));
    assert!(text.contains("|  [01] Layer: routes/mw.go (MID)"));
    assert!(!text.contains("[02] Layer"));
    assert!(text.contains("|     Hash: 0f"));
    assert!(text.ends_with(&format!("{}\nextern \"C\" {{\n    f1;\n}}\n\npub fn 0123456789abcdef() {{\n", STACK_FOOTER)));
}

#[test]
fn gen_tree_from_condition_tree() {
    let mut rs = im::Vector::new();
    rs.push_back(route(&["a"], "routes/a/get.go", "GET", Method::GET()));
    rs.push_back(route(&["a"], "routes/a/post.go", "POST", Method::POST()));
    rs.push_back(route(&["bb"], "routes/bb/get.go", "GET", Method::GET()));
    let mut t = ConditionTree::new(rs);
    t.run_pass_type::<Length>();
    let mut sg = StackGenerator::default();
    sg.register_default_adapter();
    for f in ["routes/a/get.go", "routes/a/post.go", "routes/bb/get.go"] {
        sg.add_source(f.to_string(), b"package routes".to_vec());
    }
    let mut ctx = OmnicomCtx::default();
    let gt = GenTree::from_cond_tree(&mut ctx, &mut sg, &mut t).unwrap();
    assert!(gt.node.condition.is_none());
    assert_eq!(gt.node.routes.len(), 0);
    assert_eq!(gt.node.children.len(), 2);
    let c0 = &gt.node.children[0];
    assert!(c0.condition.as_ref().unwrap() == &ConditionType::Length(2));
    assert_eq!(c0.routes.len(), 1);
    assert_eq!(c0.routes[0].get_path(), "/a");
    let st = c0.routes[0].get_stacks();
    assert_eq!(st.len(), 2);
    assert_eq!(st[0].0.bits(), Method::GET().bits());
    assert_eq!(st[0].1, stack_id_of(&[("routes/a/get.go", "GET")]));
    assert_eq!(st[1].0.bits(), Method::POST().bits());
    assert_eq!(st[1].1, stack_id_of(&[("routes/a/post.go", "POST")]));
    assert_eq!(sg.get_files().len(), 3);
    let mut ra = RustAdapter::default();
    let out = ra.generate(&mut ctx, &gt).unwrap();
    let id_bb = stack_id_of(&[("routes/bb/get.go", "GET")]);
    let id_a = stack_id_of(&[("routes/a/get.go", "GET")]);
    assert!(out.starts_with(&format!("mod {};\nmod {};\n\npub fn route(method: u32, route: &[u8]) {{\n", id_bb, id_a)));
    assert!(out.contains(&format!("}} else if method & 0b0000_0000_0000_0000_0000_0000_0000_0010 {{\n                        let res = {}.__s_{}();\n", stack_id_of(&[("routes/a/post.go", "POST")]), stack_id_of(&[("routes/a/post.go", "POST")]))));
}

#[test]
fn gen_tree_reports_first_fault() {
    let mut rs = im::Vector::new();
    rs.push_back(route(&["a"], "routes/a/get.go", "GET", Method::GET()));
    rs.push_back(route(&["bb"], "routes/bb/get.go", "GET", Method::GET()));
    let mut t = ConditionTree::new(rs);
    let mut sg = StackGenerator::default();
    sg.register_default_adapter();
    sg.add_source("routes/a/get.go".to_string(), b"x".to_vec());
    let mut ctx = OmnicomCtx::default();
    let e = GenTree::from_cond_tree(&mut ctx, &mut sg, &mut t).err().unwrap();
    assert_eq!(e, "Unable to read source: routes/bb/get.go");
    assert_eq!(t.get_routes().len(), 2);
}

#[test]
fn gen_route_accessors() {
    let mut g = GenRoute::new("/p".to_string());
    g.push_stack(Method::GET(), "a".to_string());
    g.get_stack_mut().push_back((Method::PUT(), "b".to_string()));
    assert_eq!(g.get_path(), "/p");
    assert_eq!(g.get_stacks().len(), 2);
    assert_eq!(g.get_stacks()[1].1, "b");
}

#[test]
fn names_from_digests() {
    assert_eq!(omni::languages::go::handle_from_digest("GET", &[0xab, 0x01]), "routes_GET_ab01");
    assert_eq!(omni::languages::go::source_name_from_tag(&[1, 2, 0xfe]), "0102fe.go");
    let d: Vec<u8> = (0u8..32).collect();
    assert_eq!(omni::stack::stack_id_from_digest(&d), "0001020304050607");
}
