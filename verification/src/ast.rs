//! Go sources as syntax: the handler functions a source declares and the types of
//! their parameters.
use vstd::prelude::*;
use crate::router::{found_view, FoundFunction};

verus! {

/// A node of a syntax tree, in the tree's pre-order: its kind, whether it is a
/// named node, the field it fills in its parent, its depth below the root, and its
/// text.
pub struct SyntaxNode {
    pub kind: String,
    pub named: bool,
    pub field: Option<String>,
    pub depth: u32,
    pub text: Option<String>,
}

/// A syntax node as plain values.
pub struct SyntaxView {
    pub kind: Seq<char>,
    pub named: bool,
    pub field: Option<Seq<char>>,
    pub depth: nat,
    pub text: Option<Seq<char>>,
}

impl View for SyntaxNode {
    type V = SyntaxView;

    open spec fn view(&self) -> SyntaxView {
        SyntaxView {
            kind: self.kind@,
            named: self.named,
            field: match self.field {
                Some(f) => Some(f@),
                None => None,
            },
            depth: self.depth as nat,
            text: match self.text {
                Some(t) => Some(t@),
                None => None,
            },
        }
    }
}

/// Syntax nodes as plain values.
pub open spec fn syntax_view(s: Seq<SyntaxNode>) -> Seq<SyntaxView> {
    s.map_values(|n: SyntaxNode| n@)
}

/// The syntax tree tree-sitter's Go grammar gives a source, every node in
/// pre-order, when the parser runs.
pub uninterp spec fn go_syntax_of(src: Seq<char>) -> Option<Seq<SyntaxView>>;

/// Parses Go source with tree-sitter and its Go grammar
/// (`tree_sitter::Parser::parse`), reading back every node of the tree in
/// pre-order (`TreeCursor::goto_descendant`) with its kind, whether it is named,
/// its field name, its depth and its text (`Node::utf8_text`). The result is named:
/// it is a function of the source alone. `None` where the grammar cannot be set or
/// the parser returns no tree.
#[verifier::external_body]
pub fn parse(src: &str) -> (r: Option<Vec<SyntaxNode>>)
    ensures
        match r {
            Some(v) => go_syntax_of(src@) == Some(syntax_view(v@)),
            None => go_syntax_of(src@) is None,
        },
{
    let mut parser = tree_sitter::Parser::new();
    parser.set_language(&tree_sitter_go::LANGUAGE.into()).ok()?;
    let tree = parser.parse(src, None)?;
    let mut c = tree.walk();
    let mut out = Vec::new();
    for i in 0..tree.root_node().descendant_count() {
        c.goto_descendant(i);
        let n = c.node();
        let text = n.utf8_text(src.as_bytes()).ok().map(str::to_owned);
        let field = c.field_name().map(str::to_owned);
        out.push(SyntaxNode { kind: n.kind().to_owned(), named: n.is_named(), field, depth: c.depth(), text });
    }
    Some(out)
}

/// The first node from `j` on that is a child (at depth `d + 1`) of the node at
/// depth `d` whose subtree starts at `j`, and fills the field `f`; the search stops
/// where that subtree ends.
pub open spec fn field_child(s: Seq<SyntaxView>, d: nat, f: Seq<char>, j: int) -> Option<int>
    decreases s.len() - j,
{
    if j < 0 || j >= s.len() || s[j].depth <= d {
        None
    } else if s[j].depth == d + 1 && s[j].field == Some(f) {
        Some(j)
    } else {
        field_child(s, d, f, j + 1)
    }
}

/// The types of the parameters from `j` on in a parameter list at depth `d`: for
/// each named child, the text of its `type` field, where it has one.
pub open spec fn param_types_from(s: Seq<SyntaxView>, d: nat, j: int) -> Seq<Seq<char>>
    decreases s.len() - j,
{
    if j < 0 || j >= s.len() || s[j].depth <= d {
        seq![]
    } else {
        let rest = param_types_from(s, d, j + 1);
        if s[j].depth == d + 1 && s[j].named {
            match field_child(s, d + 1, "type"@, j + 1) {
                Some(t) => match s[t].text {
                    Some(x) => seq![x] + rest,
                    None => rest,
                },
                None => rest,
            }
        } else {
            rest
        }
    }
}

/// The types of the parameters of the declaration at `i`: those of its
/// `parameters` list, none when it has no such list.
pub open spec fn func_params(s: Seq<SyntaxView>, i: int) -> Seq<Seq<char>> {
    match field_child(s, s[i].depth, "parameters"@, i + 1) {
        Some(p) => param_types_from(s, s[p].depth, p + 1),
        None => seq![],
    }
}

/// The kind of name a declaration of this kind carries: functions are named by an
/// identifier, methods by a field identifier; other nodes declare no function.
pub open spec fn name_kind(kind: Seq<char>) -> Option<Seq<char>> {
    if kind == "function_declaration"@ {
        Some("identifier"@)
    } else if kind == "method_declaration"@ {
        Some("field_identifier"@)
    } else {
        None
    }
}

/// The name of the function declared at `i`, if a function or method is declared
/// there with a name of the right kind.
pub open spec fn func_name_at(s: Seq<SyntaxView>, i: int) -> Option<Seq<char>> {
    match name_kind(s[i].kind) {
        Some(nk) => match field_child(s, s[i].depth, "name"@, i + 1) {
            Some(n) => if s[n].kind == nk {
                s[n].text
            } else {
                None
            },
            None => None,
        },
        None => None,
    }
}

/// The functions declared from `j` on, in source order: each name with the index
/// of its declaration.
pub open spec fn discovered_from(s: Seq<SyntaxView>, j: int) -> Seq<(Seq<char>, int)>
    decreases s.len() - j,
{
    if j < 0 || j >= s.len() {
        seq![]
    } else {
        match func_name_at(s, j) {
            Some(n) => seq![(n, j)] + discovered_from(s, j + 1),
            None => discovered_from(s, j + 1),
        }
    }
}

/// The functions a syntax tree declares, each with the types of its parameters.
pub open spec fn go_functions(s: Seq<SyntaxView>) -> Seq<(Seq<char>, Seq<Seq<char>>)> {
    discovered_from(s, 0).map_values(|e: (Seq<char>, int)| (e.0, func_params(s, e.1)))
}

/// A function found in a syntax tree: its name and the index of its declaration.
pub struct DiscoveredFunction {
    pub name: String,
    pub declaration: usize,
}

/// Discovered functions as plain values.
pub open spec fn discovered_view(v: Seq<DiscoveredFunction>) -> Seq<(Seq<char>, int)> {
    v.map_values(|f: DiscoveredFunction| (f.name@, f.declaration as int))
}

/// The first child of the node at depth `d` filling field `f`, from `j` on.
fn find_field(s: &Vec<SyntaxNode>, d: u32, f: &str, j: usize) -> (r: Option<usize>)
    ensures
        match r {
            Some(k) => field_child(syntax_view(s@), d as nat, f@, j as int) == Some(k as int) && k < s@.len(),
            None => field_child(syntax_view(s@), d as nat, f@, j as int) is None,
        },
{
    let ghost sv = syntax_view(s@);
    let mut k = j;
    while k < s.len()
        invariant
            j <= k,
            sv == syntax_view(s@),
            field_child(sv, d as nat, f@, j as int) == field_child(sv, d as nat, f@, k as int),
        decreases s.len() - k,
    {
        assert(sv[k as int] == s@[k as int]@);
        if s[k].depth <= d {
            return None;
        }
        let is_field = match &s[k].field {
            Some(x) => crate::text::str_eq(x.as_str(), f),
            None => false,
        };
        if s[k].depth - d == 1 && is_field {
            return Some(k);
        }
        k = k + 1;
    }
    None
}

/// The types of a function's parameters, in order: for each named child of its
/// `parameters` list, the text of that child's `type` field.
pub fn get_func_params(s: &Vec<SyntaxNode>, decl: usize) -> (r: Vec<String>)
    requires
        decl < s@.len(),
    ensures
        r@.map_values(|t: String| t@) == func_params(syntax_view(s@), decl as int),
{
    let ghost sv = syntax_view(s@);
    let _n = s.len();
    assert(sv[decl as int] == s@[decl as int]@);
    let mut types: Vec<String> = Vec::new();
    let p = match find_field(s, s[decl].depth, "parameters", decl + 1) {
        Some(p) => p,
        None => {
            return types;
        },
    };
    assert(sv[p as int] == s@[p as int]@);
    let d = s[p].depth;
    let mut j = p + 1;
    while j < s.len() && s[j].depth > d
        invariant
            p < s@.len(),
            j <= s@.len(),
            sv == syntax_view(s@),
            d as nat == sv[p as int].depth,
            func_params(sv, decl as int) == param_types_from(sv, d as nat, p + 1),
            types@.map_values(|t: String| t@) + param_types_from(sv, d as nat, j as int) == param_types_from(
                sv,
                d as nat,
                p + 1,
            ),
        decreases s.len() - j,
    {
        assert(sv[j as int] == s@[j as int]@);
        let ghost before = types@.map_values(|t: String| t@);
        if s[j].depth - d == 1 && s[j].named {
            match find_field(s, d + 1, "type", j + 1) {
                Some(t) => {
                    assert(sv[t as int] == s@[t as int]@);
                    match &s[t].text {
                        Some(x) => {
                            types.push(x.clone());
                            assert(types@.map_values(|t: String| t@) =~= before.push(x@));
                            assert(before.push(x@) + param_types_from(sv, d as nat, j + 1) =~= before + (seq![x@]
                                + param_types_from(sv, d as nat, j + 1)));
                        },
                        None => {},
                    }
                },
                None => {},
            }
        }
        j = j + 1;
    }
    assert(j < s@.len() ==> sv[j as int] == s@[j as int]@);
    assert(param_types_from(sv, d as nat, j as int) == Seq::<Seq<char>>::empty());
    assert(types@.map_values(|t: String| t@) =~= types@.map_values(|t: String| t@) + Seq::<Seq<char>>::empty());
    types
}

/// The name of the function declared at `i`, if one is.
fn func_name(s: &Vec<SyntaxNode>, i: usize) -> (r: Option<String>)
    requires
        i < s@.len(),
    ensures
        match r {
            Some(n) => func_name_at(syntax_view(s@), i as int) == Some(n@),
            None => func_name_at(syntax_view(s@), i as int) is None,
        },
{
    let ghost sv = syntax_view(s@);
    let _n = s.len();
    assert(sv[i as int] == s@[i as int]@);
    let kind = s[i].kind.as_str();
    let nk = if crate::text::str_eq(kind, "function_declaration") {
        "identifier"
    } else if crate::text::str_eq(kind, "method_declaration") {
        "field_identifier"
    } else {
        return None;
    };
    assert(name_kind(sv[i as int].kind) == Some(nk@));
    match find_field(s, s[i].depth, "name", i + 1) {
        Some(n) => {
            assert(sv[n as int] == s@[n as int]@);
            if crate::text::str_eq(s[n].kind.as_str(), nk) {
                match &s[n].text {
                    Some(t) => Some(t.clone()),
                    None => None,
                }
            } else {
                None
            }
        },
        None => None,
    }
}

/// The function and method declarations of a syntax tree, in source order, each
/// with its name and the index of its declaration.
pub fn discover_functions(s: &Vec<SyntaxNode>) -> (r: Vec<DiscoveredFunction>)
    ensures
        discovered_view(r@) == discovered_from(syntax_view(s@), 0),
        forall|k: int| 0 <= k < r@.len() ==> (#[trigger] r@[k]).declaration < s@.len(),
{
    let ghost sv = syntax_view(s@);
    let mut out: Vec<DiscoveredFunction> = Vec::new();
    let mut i: usize = 0;
    while i < s.len()
        invariant
            i <= s@.len(),
            sv == syntax_view(s@),
            discovered_view(out@) + discovered_from(sv, i as int) == discovered_from(sv, 0),
            forall|k: int| 0 <= k < out@.len() ==> (#[trigger] out@[k]).declaration < s@.len(),
        decreases s.len() - i,
    {
        let ghost before = discovered_view(out@);
        match func_name(s, i) {
            Some(n) => {
                let ghost nv = n@;
                out.push(DiscoveredFunction { name: n, declaration: i });
                assert(discovered_view(out@) =~= before.push((nv, i as int)));
                assert(before.push((nv, i as int)) + discovered_from(sv, i + 1) =~= before + (seq![(nv, i as int)]
                    + discovered_from(sv, i + 1)));
            },
            None => {},
        }
        i = i + 1;
    }
    assert(discovered_view(out@) =~= discovered_view(out@) + discovered_from(sv, i as int));
    out
}

/// The functions a syntax tree declares, each with the types of its parameters,
/// in source order.
pub fn found_functions(s: &Vec<SyntaxNode>) -> (r: Vec<FoundFunction>)
    ensures
        found_view(r@) == go_functions(syntax_view(s@)),
{
    let ghost sv = syntax_view(s@);
    let ds = discover_functions(s);
    let ghost dv = discovered_view(ds@);
    let mut out: Vec<FoundFunction> = Vec::new();
    let mut i: usize = 0;
    while i < ds.len()
        invariant
            i <= ds@.len(),
            sv == syntax_view(s@),
            dv == discovered_view(ds@),
            dv == discovered_from(sv, 0),
            forall|k: int| 0 <= k < ds@.len() ==> (#[trigger] ds@[k]).declaration < s@.len(),
            found_view(out@) == dv.take(i as int).map_values(|e: (Seq<char>, int)| (e.0, func_params(sv, e.1))),
        decreases ds.len() - i,
    {
        let f = &ds[i];
        assert(dv[i as int] == (f.name@, f.declaration as int));
        let types = get_func_params(s, f.declaration);
        let ghost before = found_view(out@);
        out.push(FoundFunction { name: f.name.clone(), param_types: types });
        assert(found_view(out@) =~= before.push((f.name@, func_params(sv, f.declaration as int))));
        assert(dv.take(i + 1) =~= dv.take(i as int).push(dv[i as int]));
        assert(dv.take(i + 1).map_values(|e: (Seq<char>, int)| (e.0, func_params(sv, e.1))) =~= dv.take(
            i as int,
        ).map_values(|e: (Seq<char>, int)| (e.0, func_params(sv, e.1))).push((f.name@, func_params(sv, f.declaration as int))));
        i = i + 1;
    }
    assert(dv.take(i as int) =~= dv);
    out
}

} // verus!
