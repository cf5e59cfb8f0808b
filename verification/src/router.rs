//! The route model: path segments, usage flags, discovered handler nodes and routes.
use vstd::prelude::*;
use crate::ast::{found_functions, go_functions, go_syntax_of, parse};
use crate::collections::{
    node_vec, node_vec_get, node_vec_len, node_vec_new, node_vec_push_back, seg_vec, seg_vec_get,
    seg_vec_len,
};
use crate::http::{method_bits_by_name, method_text, Method};
use crate::text::uppercase;
use crate::text::{flags_text, push_char, push_flags_text};

verus! {

/// One segment of a route path: a fixed name or a dynamic parameter.
#[derive(Clone, Debug, Hash)]
pub enum RouteSeg {
    Dynamic(String),
    Static(String),
}

/// A segment as characters.
pub enum SegView {
    Dynamic(Seq<char>),
    Static(Seq<char>),
}

impl View for RouteSeg {
    type V = SegView;

    open spec fn view(&self) -> SegView {
        match self {
            RouteSeg::Dynamic(s) => SegView::Dynamic(s@),
            RouteSeg::Static(s) => SegView::Static(s@),
        }
    }
}

/// How a segment prints: a static name as it is, a dynamic one after `:`.
pub open spec fn seg_text(s: SegView) -> Seq<char> {
    match s {
        SegView::Static(n) => n,
        SegView::Dynamic(n) => ":"@ + n,
    }
}

/// Every segment after a `/`.
pub open spec fn segs_text(segs: Seq<SegView>) -> Seq<char>
    decreases segs.len(),
{
    if segs.len() == 0 {
        seq![]
    } else {
        segs_text(segs.drop_last()) + "/"@ + seg_text(segs.last())
    }
}

/// The path string of a route: its segments after slashes, or `/` for the root.
pub open spec fn path_text(segs: Seq<SegView>) -> Seq<char> {
    if segs.len() == 0 {
        "/"@
    } else {
        segs_text(segs)
    }
}

/// The segment views of a segment vector.
pub open spec fn segs_view(v: im::Vector<RouteSeg>) -> Seq<SegView> {
    seg_vec(v).map_values(|s: RouteSeg| s@)
}

impl RouteSeg {
    /// The printed segment.
    pub fn to_text(&self) -> (s: String)
        ensures
            s@ == seg_text(self@),
    {
        match self {
            RouteSeg::Static(n) => n.clone(),
            RouteSeg::Dynamic(n) => {
                let mut s = String::from_str(":");
                s.append(n.as_str());
                s
            },
        }
    }
}

/// The usage flags of a handler, one bit each: DB, Ctx, Hdr, Bdy, Dyn, Hot.
#[derive(Clone, Copy, PartialEq, Eq, Structural, Debug, Hash)]
pub struct RouteFlags {
    pub bits: u64,
}

/// The flag names, in bit order.
pub open spec fn route_flag_names() -> Seq<Seq<char>> {
    seq!["DB"@, "Ctx"@, "Hdr"@, "Bdy"@, "Dyn"@, "Hot"@]
}

/// How a flag set prints, e.g. `RouteFlags(DB | Ctx)`.
pub open spec fn route_flags_text(bits: u64) -> Seq<char> {
    "RouteFlags("@ + flags_text(bits, route_flag_names()) + ")"@
}

#[allow(non_snake_case)]
impl RouteFlags {
    pub fn DB() -> (f: RouteFlags)
        ensures
            f.bits == 0x01,
    {
        RouteFlags { bits: 0x01 }
    }

    pub fn Ctx() -> (f: RouteFlags)
        ensures
            f.bits == 0x02,
    {
        RouteFlags { bits: 0x02 }
    }

    pub fn Hdr() -> (f: RouteFlags)
        ensures
            f.bits == 0x04,
    {
        RouteFlags { bits: 0x04 }
    }

    pub fn Bdy() -> (f: RouteFlags)
        ensures
            f.bits == 0x08,
    {
        RouteFlags { bits: 0x08 }
    }

    pub fn Dyn() -> (f: RouteFlags)
        ensures
            f.bits == 0x10,
    {
        RouteFlags { bits: 0x10 }
    }

    pub fn Hot() -> (f: RouteFlags)
        ensures
            f.bits == 0x20,
    {
        RouteFlags { bits: 0x20 }
    }

    pub fn empty() -> (f: RouteFlags)
        ensures
            f.bits == 0,
    {
        RouteFlags { bits: 0 }
    }

    pub fn bits(&self) -> (b: u64)
        ensures
            b == self.bits,
    {
        self.bits
    }

    pub fn is_empty(&self) -> (b: bool)
        ensures
            b == (self.bits == 0),
    {
        self.bits == 0
    }

    pub fn union(&self, other: RouteFlags) -> (f: RouteFlags)
        ensures
            f.bits == self.bits | other.bits,
    {
        RouteFlags { bits: self.bits | other.bits }
    }

    /// The printed form of the set, e.g. `RouteFlags(DB | Ctx)`.
    pub fn to_text(&self) -> (s: String)
        ensures
            s@ == route_flags_text(self.bits),
    {
        let mut names: Vec<&str> = Vec::new();
        names.push("DB");
        names.push("Ctx");
        names.push("Hdr");
        names.push("Bdy");
        names.push("Dyn");
        names.push("Hot");
        assert(names@.map_values(|n: &str| n@) =~= route_flag_names());
        let mut s = String::from_str("RouteFlags(");
        push_flags_text(&mut s, self.bits, &names);
        s.append(")");
        s
    }
}

/// The usage flags as an enumeration.
pub enum Flags {
    DB,
    Ctx,
    Hdr,
    Bdy,
    Dyn,
}

impl Flags {
    /// The bit of the flag.
    pub fn value(&self) -> (v: u64)
        ensures
            v == match self {
                Flags::DB => 0x01u64,
                Flags::Ctx => 0x02u64,
                Flags::Hdr => 0x04u64,
                Flags::Bdy => 0x08u64,
                Flags::Dyn => 0x10u64,
            },
    {
        match self {
            Flags::DB => 0x01,
            Flags::Ctx => 0x02,
            Flags::Hdr => 0x04,
            Flags::Bdy => 0x08,
            Flags::Dyn => 0x10,
        }
    }
}

/// What discovery records of one handler function.
#[derive(Clone, Debug)]
pub struct NodeDatum {
    /// The source file.
    pub file: String,
    /// The function's name.
    pub fname: String,
    pub params: Vec<(String, String)>,
    pub ret: Vec<String>,
    pub ruflags: RouteFlags,
}

/// A discovered handler: an endpoint for a method, or middleware for its subtree.
#[derive(Clone, Debug)]
pub enum Node {
    Endpoint(NodeDatum, Method),
    Middleware(NodeDatum),
}

/// A node as plain values; `method` is `None` for middleware.
pub struct NodeView {
    pub method: Option<u32>,
    pub file: Seq<char>,
    pub fname: Seq<char>,
    pub params: Seq<(Seq<char>, Seq<char>)>,
    pub ret: Seq<Seq<char>>,
    pub flags: u64,
}

pub open spec fn datum_view(d: NodeDatum, method: Option<u32>) -> NodeView {
    NodeView {
        method,
        file: d.file@,
        fname: d.fname@,
        params: d.params@.map_values(|p: (String, String)| (p.0@, p.1@)),
        ret: d.ret@.map_values(|r: String| r@),
        flags: d.ruflags.bits,
    }
}

impl View for Node {
    type V = NodeView;

    open spec fn view(&self) -> NodeView {
        match self {
            Node::Endpoint(d, m) => datum_view(*d, Some(m.bits)),
            Node::Middleware(d) => datum_view(*d, None),
        }
    }
}

/// The node views of a node vector.
pub open spec fn nodes_view(v: im::Vector<Node>) -> Seq<NodeView> {
    node_vec(v).map_values(|n: Node| n@)
}

/// A function that discovery found in a handler file: its name and the types of its
/// parameters, in order.
#[derive(Clone, Debug)]
pub struct FoundFunction {
    pub name: String,
    pub param_types: Vec<String>,
}

/// Whether a function can be a handler: its first parameter is an `OmniContext`.
pub open spec fn takes_context(param_types: Seq<Seq<char>>) -> bool {
    param_types.len() > 0 && param_types[0] == "OmniContext"@
}

/// The method of a handler: the one its function name denotes, else the one the
/// file name denotes, else none (middleware). Both names are matched ignoring case.
pub open spec fn handler_method(fname: Seq<char>, file_stem: Seq<char>) -> Option<u32> {
    match method_bits_by_name(uppercase(fname)) {
        Some(m) => Some(m),
        None => method_bits_by_name(uppercase(file_stem)),
    }
}

/// The node discovery makes of a handler function.
pub open spec fn handler_node(file: Seq<char>, file_stem: Seq<char>, fname: Seq<char>) -> NodeView {
    NodeView {
        method: handler_method(fname, file_stem),
        file,
        fname,
        params: seq![],
        ret: seq![],
        flags: 0,
    }
}

/// The nodes of a handler file, in the order its functions were found: one for each
/// function that takes an `OmniContext` first.
pub open spec fn handler_nodes(
    file: Seq<char>,
    file_stem: Seq<char>,
    funcs: Seq<(Seq<char>, Seq<Seq<char>>)>,
) -> Seq<NodeView>
    decreases funcs.len(),
{
    if funcs.len() == 0 {
        seq![]
    } else {
        let prev = handler_nodes(file, file_stem, funcs.drop_last());
        let f = funcs.last();
        if takes_context(f.1) {
            prev.push(handler_node(file, file_stem, f.0))
        } else {
            prev
        }
    }
}

/// The found functions as plain values.
pub open spec fn found_view(funcs: Seq<FoundFunction>) -> Seq<(Seq<char>, Seq<Seq<char>>)> {
    funcs.map_values(|f: FoundFunction| (f.name@, f.param_types@.map_values(|t: String| t@)))
}

/// The stem of a path's file name (the name up to its last dot), as `Path::file_stem`
/// of std computes it, when there is one.
pub uninterp spec fn file_stem_of(path: Seq<char>) -> Option<Seq<char>>;

/// The stem of a file name: `Path::file_stem` of std, read back as text (a stem of a
/// path given as text is text as well).
#[verifier::external_body]
pub(crate) fn file_stem(path: &str) -> (r: Option<String>)
    ensures
        match r {
            Some(s) => file_stem_of(path@) == Some(s@),
            None => file_stem_of(path@) is None,
        },
{
    match std::path::Path::new(path).file_stem() {
        Some(n) => n.to_str().map(str::to_owned),
        None => None,
    }
}

/// The stem used to resolve a file's method: the file stem, or empty text.
pub open spec fn stem_or_empty(path: Seq<char>) -> Seq<char> {
    match file_stem_of(path) {
        Some(s) => s,
        None => seq![],
    }
}

impl Node {
    pub fn get_src_path(&self) -> (r: &str)
        ensures
            r@ == self@.file,
    {
        match self {
            Node::Endpoint(d, _) => d.file.as_str(),
            Node::Middleware(d) => d.file.as_str(),
        }
    }

    pub fn get_name(&self) -> (r: &str)
        ensures
            r@ == self@.fname,
    {
        match self {
            Node::Endpoint(d, _) => d.fname.as_str(),
            Node::Middleware(d) => d.fname.as_str(),
        }
    }

    pub fn get_params(&self) -> (r: &Vec<(String, String)>)
        ensures
            r@.map_values(|p: (String, String)| (p.0@, p.1@)) == self@.params,
    {
        match self {
            Node::Endpoint(d, _) => &d.params,
            Node::Middleware(d) => &d.params,
        }
    }

    pub fn get_returns(&self) -> (r: &Vec<String>)
        ensures
            r@.map_values(|s: String| s@) == self@.ret,
    {
        match self {
            Node::Endpoint(d, _) => &d.ret,
            Node::Middleware(d) => &d.ret,
        }
    }

    pub fn get_flags(&self) -> (r: RouteFlags)
        ensures
            r.bits == self@.flags,
    {
        match self {
            Node::Endpoint(d, _) => d.ruflags,
            Node::Middleware(d) => d.ruflags,
        }
    }

    pub fn is_middleware(&self) -> (r: bool)
        ensures
            r == (self@.method is None),
    {
        match self {
            Node::Endpoint(_, _) => false,
            Node::Middleware(_) => true,
        }
    }

    pub fn get_method(&self) -> (r: Option<&Method>)
        ensures
            match r {
                Some(m) => self@.method == Some(m.bits),
                None => self@.method is None,
            },
    {
        match self {
            Node::Endpoint(_, m) => Some(m),
            Node::Middleware(_) => None,
        }
    }

    /// The nodes of one handler file, given the functions found in it. A function
    /// whose first parameter is not an `OmniContext` is no handler and is left out;
    /// each other one becomes an endpoint for the method its name denotes, else for
    /// the method the file's name denotes, else middleware.
    pub fn from_file(file: &str, funcs: &Vec<FoundFunction>) -> (r: im::Vector<Node>)
        ensures
            nodes_view(r) == handler_nodes(file@, stem_or_empty(file@), found_view(funcs@)),
    {
        let stem = match file_stem(file) {
            Some(s) => s,
            None => String::new(),
        };
        Node::from_stem_functions(file, stem.as_str(), funcs)
    }

    /// The nodes of one handler file given its Go source text: the functions the
    /// source declares, found in its syntax tree, each made a node as `from_file`
    /// makes it. `None` where the source gets no syntax tree.
    pub fn nodes_from_source(file: &str, src: &str) -> (r: Option<im::Vector<Node>>)
        ensures
            match go_syntax_of(src@) {
                Some(syn) => r matches Some(v) && nodes_view(v) == handler_nodes(
                    file@,
                    stem_or_empty(file@),
                    go_functions(syn),
                ),
                None => r is None,
            },
    {
        match parse(src) {
            Some(syn) => {
                let funcs = found_functions(&syn);
                Some(Node::from_file(file, &funcs))
            },
            None => None,
        }
    }

    /// The nodes of one handler file whose name has the stem `stem`, given the
    /// functions found in it.
    pub fn from_stem_functions(file: &str, stem: &str, funcs: &Vec<FoundFunction>) -> (r: im::Vector<Node>)
        ensures
            nodes_view(r) == handler_nodes(file@, stem@, found_view(funcs@)),
    {
        let file_method = Method::from_str(stem);
        let ghost fv = found_view(funcs@);
        let mut nv = node_vec_new();
        let mut i: usize = 0;
        while i < funcs.len()
            invariant
                i <= funcs.len(),
                fv == found_view(funcs@),
                match file_method {
                    Ok(m) => method_bits_by_name(uppercase(stem@)) == Some(m.bits),
                    Err(_) => method_bits_by_name(uppercase(stem@)) is None,
                },
                nodes_view(nv) == handler_nodes(file@, stem@, fv.take(i as int)),
            decreases funcs.len() - i,
        {
            let f = &funcs[i];
            assert(fv.take(i + 1).drop_last() =~= fv.take(i as int));
            let ghost types = f.param_types@.map_values(|t: String| t@);
            assert(fv[i as int] == (f.name@, types));
            if f.param_types.len() == 0 || !crate::text::str_eq(
                f.param_types[0].as_str(),
                "OmniContext",
            ) {
                assert(!takes_context(types));
            } else {
                let nd = NodeDatum {
                    file: String::from_str(file),
                    fname: f.name.clone(),
                    params: Vec::new(),
                    ret: Vec::new(),
                    ruflags: RouteFlags::empty(),
                };
                let ghost before = node_vec(nv);
                let node = match Method::from_str(f.name.as_str()) {
                    Ok(m) => Node::Endpoint(nd, m),
                    Err(_) => match file_method {
                        Ok(m) => Node::Endpoint(nd, m),
                        Err(_) => Node::Middleware(nd),
                    },
                };
                assert(node@.params =~= Seq::<(Seq<char>, Seq<char>)>::empty());
                assert(node@.ret =~= Seq::<Seq<char>>::empty());
                assert(node@ == handler_node(file@, stem@, f.name@));
                node_vec_push_back(&mut nv, node);
                assert(nodes_view(nv) =~= nodes_view(nv).drop_last().push(node@));
                assert(node_vec(nv).drop_last() =~= before);
            }
            i = i + 1;
        }
        assert(fv.take(funcs.len() as int) =~= fv);
        nv
    }

    /// A one-line description: kind, method and source file.
    pub fn to_str(&self) -> (s: String)
        ensures
            s@ == match self@.method {
                Some(m) => "ENDPOINT   ["@ + method_text(m) + "] -> "@ + self@.file,
                None => "MIDDLEWARE [ANY   ] -> "@ + self@.file,
            },
    {
        match self {
            Node::Endpoint(nd, m) => {
                let mut s = String::from_str("ENDPOINT   [");
                let mt = m.to_text();
                s.append(mt.as_str());
                s.append("] -> ");
                s.append(nd.file.as_str());
                s
            },
            Node::Middleware(nd) => {
                let mut s = String::from_str("MIDDLEWARE [ANY   ] -> ");
                s.append(nd.file.as_str());
                s
            },
        }
    }
}

/// A route: the middleware chain ending with its endpoint, the endpoint's method and
/// the path.
#[derive(Clone, Debug)]
pub struct Route {
    pub chain: im::Vector<Node>,
    pub method: Method,
    pub path: im::Vector<RouteSeg>,
}

/// A route as plain values.
pub struct RouteView {
    pub chain: Seq<NodeView>,
    pub method: u32,
    pub path: Seq<SegView>,
}

impl View for Route {
    type V = RouteView;

    open spec fn view(&self) -> RouteView {
        RouteView { chain: nodes_view(self.chain), method: self.method.bits, path: segs_view(self.path) }
    }
}

impl Route {
    /// A route to an endpoint: the chain with the endpoint appended, under the
    /// endpoint's method. A node that is no endpoint is refused.
    pub fn new(path: im::Vector<RouteSeg>, ep: Node, chain: im::Vector<Node>) -> (r: Result<
        Route,
        String,
    >)
        ensures
            match r {
                Ok(route) => ep@.method is Some && route.method.bits == ep@.method->0
                    && node_vec(route.chain) == node_vec(chain).push(ep) && route.path == path,
                Err(e) => ep@.method is None && e@ == "Provided Node is not an Endpoint"@,
            },
    {
        match ep {
            Node::Endpoint(_, m) => {
                let mut chain = chain;
                let method = m;
                node_vec_push_back(&mut chain, ep);
                Ok(Route { chain, path, method })
            },
            Node::Middleware(_) => Err(String::from_str("Provided Node is not an Endpoint")),
        }
    }

    /// The path string: `/` and each segment in turn, or `/` alone for the root.
    pub fn get_path_str(&self) -> (s: String)
        ensures
            s@ == path_text(self@.path),
    {
        let n = seg_vec_len(&self.path);
        let ghost segs = segs_view(self.path);
        let mut r = String::new();
        let mut i: usize = 0;
        while i < n
            invariant
                i <= n,
                n == seg_vec(self.path).len(),
                segs == segs_view(self.path),
                r@ == segs_text(segs.take(i as int)),
            decreases n - i,
        {
            let seg = seg_vec_get(&self.path, i);
            let ghost before = r@;
            push_char(&mut r, '/');
            let t = seg.to_text();
            r.append(t.as_str());
            assert(segs[i as int] == seg@);
            assert(segs.take(i + 1).drop_last() =~= segs.take(i as int));
            assert(segs.take(i + 1).last() == seg@);
            assert("/"@ =~= seq!['/']) by {
                reveal_strlit("/");
            }
            assert(r@ =~= before + "/"@ + seg_text(seg@));
            i = i + 1;
        }
        assert(segs.take(n as int) =~= segs);
        if n == 0 {
            push_char(&mut r, '/');
            assert(r@ =~= "/"@) by {
                reveal_strlit("/");
            }
        }
        r
    }
}

} // verus!
