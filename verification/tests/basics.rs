use omni::ctx::OmnicomCtx;
use omni::http::{Method, Types};
use omni::languages::adapter::{Adapter, AdapterEmit, AdapterFlags, AdapterStackCtx};
use omni::languages::go::GoAdapter;
use omni::languages::rust::RustAdapter;
use omni::router::{FoundFunction, Flags, Node, NodeDatum, Route, RouteFlags, RouteSeg};
use omni::text::push_joined;

fn datum(file: &str, fname: &str) -> NodeDatum {
    NodeDatum {
        file: file.to_string(),
        fname: fname.to_string(),
        params: Vec::new(),
        ret: Vec::new(),
        ruflags: RouteFlags::empty(),
    }
}

#[test]
fn method_from_str_ignores_case() {
    assert_eq!(Method::from_str("get").unwrap().bits(), Method::GET().bits());
    assert_eq!(Method::from_str("Post").unwrap().bits(), 2);
    assert_eq!(Method::from_str("TRACE").unwrap().bits(), 1 << 8);
    assert_eq!(Method::from_str("options").unwrap().bits(), 1 << 6);
}

#[test]
fn method_from_str_unknown_name() {
    let e = Method::from_str("fetch").unwrap_err();
    assert_eq!(e, "Unknown HTTP method: fetch");
    assert!(Method::from_str("").is_err());
}

#[test]
fn method_text_forms() {
    assert_eq!(Method::GET().to_text(), "Method(GET)");
    assert_eq!(Method::GET().union(Method::POST()).to_text(), "Method(GET | POST)");
    assert_eq!(Method::empty().to_text(), "Method(0x0)");
    assert_eq!(Method::from_bits_retain(1 | 0x400).to_text(), "Method(GET | 0x400)");
    assert_eq!(Method::from_bits_retain(0x600).to_text(), "Method(0x600)");
}

#[test]
fn method_set_operations() {
    let gp = Method::GET().union(Method::PUT());
    assert!(gp.contains(Method::GET()));
    assert!(!gp.contains(Method::POST()));
    assert!(Method::empty().is_empty());
    assert!(!gp.is_empty());
    assert_eq!(Method::DELETE().bits(), 16);
    assert_eq!(Method::HEAD().bits(), 32);
    assert_eq!(Method::CONNECT().bits(), 128);
    assert_eq!(Method::PATCH().bits(), 4);
}

#[test]
fn types_variants_exist() {
    let all = [Types::OmniContext, Types::OmniRequest, Types::OmniResponse, Types::OmniHeader, Types::OmniBody];
    assert_eq!(all.len(), 5);
}

#[test]
fn route_flags_text() {
    assert_eq!(RouteFlags::DB().union(RouteFlags::Ctx()).to_text(), "RouteFlags(DB | Ctx)");
    assert_eq!(RouteFlags::Hot().to_text(), "RouteFlags(Hot)");
    assert!(RouteFlags::empty().is_empty());
    assert_eq!(RouteFlags::Dyn().bits(), 0x10);
    assert_eq!(Flags::Bdy.value(), 0x08);
    assert_eq!(Flags::DB.value(), 0x01);
}

#[test]
fn route_seg_text() {
    assert_eq!(RouteSeg::Static("users".to_string()).to_text(), "users");
    assert_eq!(RouteSeg::Dynamic("id".to_string()).to_text(), ":id");
}

#[test]
fn node_to_str() {
    let ep = Node::Endpoint(datum("routes/get.go", "GET"), Method::GET());
    assert_eq!(ep.to_str(), "ENDPOINT   [Method(GET)] -> routes/get.go");
    let mw = Node::Middleware(datum("routes/middleware.go", "MIDDLEWARE"));
    assert_eq!(mw.to_str(), "MIDDLEWARE [ANY   ] -> routes/middleware.go");
}

#[test]
fn node_getters() {
    let mut d = datum("routes/get.go", "GET");
    d.params.push(("ctx".to_string(), "OmniContext".to_string()));
    d.ret.push("string".to_string());
    let ep = Node::Endpoint(d, Method::GET());
    assert_eq!(ep.get_src_path(), "routes/get.go");
    assert_eq!(ep.get_name(), "GET");
    assert_eq!(ep.get_params().len(), 1);
    assert_eq!(ep.get_returns()[0], "string");
    assert!(ep.get_flags().is_empty());
    assert!(!ep.is_middleware());
    assert_eq!(ep.get_method().unwrap().bits(), 1);
    let mw = Node::Middleware(datum("routes/mw.go", "Auth"));
    assert!(mw.is_middleware());
    assert!(mw.get_method().is_none());
}

#[test]
fn method_from_function_name_then_file_name() {
    let funcs = vec![
        FoundFunction { name: "Handler".to_string(), param_types: vec!["OmniContext".to_string()] },
        FoundFunction { name: "helper".to_string(), param_types: vec!["int".to_string()] },
        FoundFunction {
            name: "POST".to_string(),
            param_types: vec!["OmniContext".to_string(), "string".to_string()],
        },
        FoundFunction { name: "noargs".to_string(), param_types: vec![] },
    ];
    let nodes = Node::from_file("routes/get.go", &funcs);
    assert_eq!(nodes.len(), 2);
    assert_eq!(nodes[0].get_name(), "Handler");
    assert_eq!(nodes[0].get_method().unwrap().bits(), Method::GET().bits());
    assert_eq!(nodes[1].get_name(), "POST");
    assert_eq!(nodes[1].get_method().unwrap().bits(), Method::POST().bits());
}

#[test]
fn middleware_when_no_name_is_a_method() {
    let funcs = vec![FoundFunction { name: "MIDDLEWARE".to_string(), param_types: vec!["OmniContext".to_string()] }];
    let nodes = Node::from_file("routes/middleware.go", &funcs);
    assert_eq!(nodes.len(), 1);
    assert!(nodes[0].is_middleware());
    assert_eq!(nodes[0].get_src_path(), "routes/middleware.go");
}

#[test]
fn route_new_needs_an_endpoint() {
    let mw = Node::Middleware(datum("routes/mw.go", "Auth"));
    let e = Route::new(im::Vector::new(), mw, im::Vector::new()).unwrap_err();
    assert_eq!(e, "Provided Node is not an Endpoint");
}

#[test]
fn route_new_appends_the_endpoint() {
    let mw = Node::Middleware(datum("routes/mw.go", "Auth"));
    let ep = Node::Endpoint(datum("routes/users/post.go", "POST"), Method::POST());
    let mut chain = im::Vector::new();
    chain.push_back(mw);
    let mut path = im::Vector::new();
    path.push_back(RouteSeg::Static("users".to_string()));
    path.push_back(RouteSeg::Dynamic("id".to_string()));
    let r = Route::new(path, ep, chain).unwrap();
    assert_eq!(r.method.bits(), Method::POST().bits());
    assert_eq!(r.chain.len(), 2);
    assert_eq!(r.chain[1].get_name(), "POST");
    assert_eq!(r.get_path_str(), "/users/:id");
}

#[test]
fn root_path_prints_as_slash() {
    let ep = Node::Endpoint(datum("routes/get.go", "GET"), Method::GET());
    let r = Route::new(im::Vector::new(), ep, im::Vector::new()).unwrap();
    assert_eq!(r.get_path_str(), "/");
}

#[test]
fn ctx_default_layout() {
    let ctx = OmnicomCtx::default();
    assert_eq!(ctx.get_out(), "./build");
    assert_eq!(ctx.get_bin(), "./build/bin");
    assert_eq!(ctx.get_lib(), "./build/lib");
    assert_eq!(OmnicomCtx::OMNI_VERSION, "0.0.1");
}

#[test]
fn adapter_identities() {
    let ra = RustAdapter::default();
    assert_eq!(ra.get_name(), "RustAdapter");
    assert_eq!(ra.get_version(), "0.0.1");
    assert_eq!(ra.get_flags(), 0);
    let ga = GoAdapter::default();
    assert_eq!(ga.get_name(), "GoAdapter");
    assert_eq!(ga.get_version(), "0.0.1");
    assert_eq!(ga.get_flags(), 0);
    assert_eq!(AdapterFlags::Importable.value(), 0);
    assert_eq!(AdapterFlags::RequiresBuild.value(), 1);
    assert_eq!(AdapterFlags::Object.value(), 2);
    assert_eq!(AdapterFlags::Interpretted.value(), 4);
}

#[test]
fn adapter_emit_records() {
    let mut e = AdapterEmit::new("routes/get.go", "GET".to_string(), "1".to_string(), vec![0xab, 0x01, 0xff]);
    assert_eq!(e.get_version(), "1");
    assert_eq!(e.get_func_name(), "GET");
    assert_eq!(e.get_hash(), &vec![0xab, 0x01, 0xff]);
    assert_eq!(e.get_hash_str(), "ab01ff");
    assert!(e.get_ctx("handle").is_none());
    e.set_ctx("handle", "h1");
    e.set_ctx("handle", "h2");
    assert_eq!(e.get_ctx("handle").unwrap(), "h2");
}

#[test]
fn stack_ctx_files_append() {
    let mut a = AdapterStackCtx::new();
    a.file("x.go", b"ab");
    a.file("x.go", b"cd");
    a.file("y.go", b"z");
    assert_eq!(a.get_files().get("x.go").unwrap(), &b"abcd".to_vec());
    assert_eq!(a.get_files().get("y.go").unwrap(), &b"z".to_vec());
    assert!(a.ffi.is_empty());
}

#[test]
fn joined_text() {
    let mut s = String::from("(");
    push_joined(&mut s, &vec!["a: int".to_string(), "b: string".to_string()], ", ");
    assert_eq!(s, "(a: int, b: string");
    let mut t = String::new();
    push_joined(&mut t, &vec![], ", ");
    assert_eq!(t, "");
}

#[test]
fn method_from_upper_names() {
    assert_eq!(Method::from_upper("DELETE", "delete").unwrap().bits(), 16);
    assert_eq!(Method::from_upper("get", "get").unwrap_err(), "Unknown HTTP method: get");
}

#[test]
fn nodes_from_a_given_stem() {
    let funcs = vec![FoundFunction { name: "Handle".to_string(), param_types: vec!["OmniContext".to_string()] }];
    let nodes = Node::from_stem_functions("routes/x.go", "post", &funcs);
    assert_eq!(nodes.len(), 1);
    assert_eq!(nodes[0].get_method().unwrap().bits(), Method::POST().bits());
    let mw = Node::from_stem_functions("routes/x.go", "", &funcs);
    assert!(mw[0].is_middleware());
}

#[test]
fn source_functions_and_parameter_types() {
    let src = "package routes\n\nfunc GET(ctx OmniContext, n int) string {\n\treturn \"\"\n}\n\nfunc helper(a, b string) {}\n\nfunc (s Server) POST(ctx OmniContext) {}\n";
    let syn = omni::ast::parse(src).unwrap();
    let funcs = omni::ast::found_functions(&syn);
    assert_eq!(funcs.len(), 3);
    assert_eq!(funcs[0].name, "GET");
    assert_eq!(funcs[0].param_types, vec!["OmniContext".to_string(), "int".to_string()]);
    assert_eq!(funcs[1].name, "helper");
    assert_eq!(funcs[1].param_types, vec!["string".to_string()]);
    assert_eq!(funcs[2].name, "POST");
    assert_eq!(funcs[2].param_types, vec!["OmniContext".to_string()]);
    let ds = omni::ast::discover_functions(&syn);
    assert_eq!(ds.len(), 3);
    assert_eq!(omni::ast::get_func_params(&syn, ds[1].declaration), vec!["string".to_string()]);
}

#[test]
fn nodes_from_go_source() {
    let src = "package routes\nfunc GET(ctx OmniContext) {}\nfunc helper(x int) {}\nfunc Auth(ctx OmniContext) {}\n";
    let nodes = Node::nodes_from_source("routes/users/get.go", src).unwrap();
    assert_eq!(nodes.len(), 2);
    assert!(!nodes[0].is_middleware());
    assert_eq!(nodes[0].get_name(), "GET");
    assert_eq!(nodes[0].get_method().unwrap().bits(), Method::GET().bits());
    assert!(!nodes[1].is_middleware());
    assert_eq!(nodes[1].get_name(), "Auth");
    assert_eq!(nodes[1].get_method().unwrap().bits(), Method::GET().bits());
    let mw = Node::nodes_from_source("routes/users/middleware.go", src).unwrap();
    assert_eq!(mw.len(), 2);
    assert!(!mw[0].is_middleware());
    assert!(mw[1].is_middleware());
    let none = Node::nodes_from_source("routes/x.go", "package routes\n").unwrap();
    assert_eq!(none.len(), 0);
}
