//! Stacks: the generated code that runs a route's handler chain, with a header
//! that records what it was generated from.
use vstd::prelude::*;
use vstd::utf8::encode_utf8;
use crate::collections::{node_vec, node_vec_get, node_vec_len};
use crate::ctx::OmnicomCtx;
use crate::gentree::GenRoute;
use crate::hashes::{push_bytes, sha3_256, sha3_256_digest};
use crate::http::method_text;
use crate::languages::adapter::{deps_view, Adapter, AdapterEmit, AdapterEmitView, AdapterStackCtx, InAdapter};
use crate::languages::go::{extension_of, go_emit_view, go_handle, go_rows, GoAdapter};
use crate::router::{nodes_view, path_text, route_flags_text, Node, NodeView, Route, RouteView};
use crate::text::{decimal, hex_bytes, hex_encode, join, line, push_char, push_decimal, push_joined, push_line, spaces, str_eq};

verus! {

/// The banner at the top of a stack file.
pub const STACK_LOGO: &'static str = "/*=============================================================================\\\n|                                                                              |\n|      ____                  _   __  __________  ____                          |\n|     / __ \\____ ___  ____  (_) / / / /_  __/_  __/ __ \\                       |\n|    / / / / __ `__ \\/ __ \\/ / / /_/ / / /   / / / /_/ /                       |\n|   / /_/ / / / / / / / / / / / __  / / /   / / / ____/                        |\n|   \\____/_/ /_/ /_/_/ /_/_/ /_/ /_/ /_/   /_/ /_/                             |\n|                                                                              |";

/// A rule between sections of a stack header.
pub const STACK_RULE: &'static str = "|------------------------------------------------------------------------------|";

/// The end of a stack header's comment.
pub const STACK_FOOTER: &'static str = "\\=============================================================================*/\n\n\n";

/// One row of a stack header: the text cut to 73 characters and `...` when it is
/// longer than 76, padded to 76, between `| ` and ` |`.
#[verifier::opaque]
pub open spec fn header_row(text: Seq<char>) -> Seq<char> {
    let t = if text.len() > 76 {
        text.take(73) + "..."@
    } else {
        text
    };
    "| "@ + t + spaces((76 - t.len()) as nat) + " |\n"@
}

/// A position counted from one, with at least two digits.
pub open spec fn two_digits(n: nat) -> Seq<char> {
    if n < 10 {
        "0"@ + decimal(n)
    } else {
        decimal(n)
    }
}

/// How a node's flags show: `None`, or the flag set.
pub open spec fn flags_shown(bits: u64) -> Seq<char> {
    if bits == 0 {
        "None"@
    } else {
        route_flags_text(bits)
    }
}

/// The parameters of a node as `name: type`.
pub open spec fn param_texts(ps: Seq<(Seq<char>, Seq<char>)>) -> Seq<Seq<char>> {
    ps.map_values(|p: (Seq<char>, Seq<char>)| p.0 + ": "@ + p.1)
}

/// The header rows that describe a node of the chain at a position.
pub open spec fn node_rows(idx: nat, v: NodeView) -> Seq<char> {
    header_row(
        " ["@ + two_digits(idx + 1) + "] "@ + (if v.method is None {
            "MIDDLEWARE"@
        } else {
            "ENDPOINT"@
        }) + " -> "@ + v.file,
    ) + header_row("      Func:  "@ + v.fname + " | Flags: "@ + flags_shown(v.flags)) + (if v.params.len() > 0 {
        header_row("      Args:  ("@ + join(param_texts(v.params), ", "@) + ")"@)
    } else {
        header_row("      Args:  None"@)
    }) + (if v.ret.len() > 0 {
        header_row("      Ret:   "@ + join(v.ret, ", "@))
    } else {
        seq![]
    }) + header_row(seq![])
}

/// The rows of every node of the chain.
pub open spec fn chain_rows(chain: Seq<NodeView>) -> Seq<char>
    decreases chain.len(),
{
    if chain.len() == 0 {
        seq![]
    } else {
        chain_rows(chain.drop_last()) + node_rows((chain.len() - 1) as nat, chain.last())
    }
}

/// The header rows that describe what was emitted for a node at a position.
pub open spec fn artifact_rows(idx: nat, v: NodeView, e: AdapterEmitView) -> Seq<char> {
    header_row(
        " ["@ + two_digits(idx + 1) + "] Layer: "@ + v.file + " ("@ + (if v.method is None {
            "MID"@
        } else {
            "END"@
        }) + ")"@,
    ) + header_row("      Version: "@ + e.version) + header_row("    Hash: "@ + hex_bytes(e.hash)) + header_row(
        seq![],
    )
}

/// The artifact rows of the emissions, each beside the node it was made for.
pub open spec fn chain_artifacts(chain: Seq<NodeView>, emits: Seq<AdapterEmitView>) -> Seq<char>
    decreases emits.len(),
{
    if emits.len() == 0 {
        seq![]
    } else {
        let i = emits.len() - 1;
        chain_artifacts(chain, emits.drop_last()) + artifact_rows(i as nat, chain[i], emits.last())
    }
}

/// The number of middleware nodes.
pub open spec fn middleware_count(chain: Seq<NodeView>) -> nat
    decreases chain.len(),
{
    if chain.len() == 0 {
        0
    } else {
        middleware_count(chain.drop_last()) + if chain.last().method is None {
            1nat
        } else {
            0nat
        }
    }
}

/// The declarations of the foreign functions.
pub open spec fn ffi_lines(ffi: Seq<Seq<char>>) -> Seq<char>
    decreases ffi.len(),
{
    if ffi.len() == 0 {
        seq![]
    } else {
        ffi_lines(ffi.drop_last()) + "    "@ + ffi.last() + ";\n"@
    }
}

/// The block of foreign declarations; nothing when there are none.
pub open spec fn ffi_block(ffi: Seq<Seq<char>>) -> Seq<char> {
    if ffi.len() > 0 {
        "extern \"C\" {\n"@ + ffi_lines(ffi) + "}\n"@
    } else {
        seq![]
    }
}

/// The start of a stack header: the banner, the compiler, the stack, when and for
/// which target it was generated, and the warning against editing it.
pub open spec fn header_intro(id: Seq<char>, time: Seq<char>, target: Seq<char>) -> Seq<char> {
    STACK_LOGO@ + "\n"@ + header_row(seq![]) + STACK_RULE@ + "\n"@ + header_row("OmniCom V"@ + "0.0.1"@)
        + header_row("Stack ID:  "@ + id) + header_row("Generated: "@ + time) + header_row("Target: "@ + target)
        + header_row(seq![]) + header_row(" *** DO NOT MODIFY ***"@) + header_row(
        " Auto-generated code. Manual edits will be lost during build."@,
    ) + header_row(seq![]) + STACK_RULE@ + "\n"@
}

/// The route part of a stack header: the route, the length of its chain, and
/// the rows of each node.
pub open spec fn header_route(r: RouteView) -> Seq<char> {
    header_row("TARGET ROUTE: "@ + method_text(r.method) + " "@ + path_text(r.path)) + header_row(
        "CHAIN LENGTH: "@ + decimal(r.chain.len()) + " ("@ + decimal(middleware_count(r.chain))
            + " Middleware, 1 Endpoint)"@,
    ) + header_row(seq![]) + header_row(" --- STACK TRACE & NODE DETAILS ---"@) + chain_rows(r.chain) + STACK_RULE@
        + "\n"@
}

/// The artifacts part of a stack header, and the end of its comment.
pub open spec fn header_artifacts(r: RouteView, emits: Seq<AdapterEmitView>) -> Seq<char> {
    header_row(" --- GENERATION ARTIFACTS ---"@) + chain_artifacts(r.chain, emits) + STACK_FOOTER@ + "\n"@
}

/// The header of a stack: the banner, what generated it and when, the route and
/// its chain, what was emitted for each node, the foreign declarations, and the
/// opening of the stack's function.
pub open spec fn stack_header(
    id: Seq<char>,
    time: Seq<char>,
    target: Seq<char>,
    r: RouteView,
    emits: Seq<AdapterEmitView>,
    ffi: Seq<Seq<char>>,
) -> Seq<char> {
    header_intro(id, time, target) + header_route(r) + header_artifacts(r, emits) + ffi_block(ffi) + "\npub fn "@
        + id + "() {\n"@
}

/// The code that runs the chain: per node, a note of the adapter and the code
/// that calls its handler.
pub open spec fn chain_code(chain: Seq<NodeView>) -> Seq<char>
    decreases chain.len(),
{
    if chain.len() == 0 {
        seq![]
    } else {
        chain_code(chain.drop_last()) + line(1, "// Generated via GoAdapter V0.0.1"@) + go_rows(
            1,
            go_handle(chain.last().file, chain.last().fname),
        )
    }
}

/// Whether `i` is the first supplied source of that path.
pub open spec fn first_source(srcs: Seq<(Seq<char>, Seq<u8>)>, path: Seq<char>, i: int) -> bool {
    &&& 0 <= i < srcs.len()
    &&& srcs[i].0 == path
    &&& forall|j: int| 0 <= j < i ==> (#[trigger] srcs[j]).0 != path
}

/// The text of the first supplied source of that path, empty when none is.
pub open spec fn source_content(srcs: Seq<(Seq<char>, Seq<u8>)>, path: Seq<char>) -> Seq<u8> {
    if exists|i: int| first_source(srcs, path, i) {
        srcs[choose|i: int| first_source(srcs, path, i)].1
    } else {
        seq![]
    }
}

/// The emission record of a node, over the supplied sources.
pub open spec fn node_emit(srcs: Seq<(Seq<char>, Seq<u8>)>, v: NodeView) -> AdapterEmitView {
    go_emit_view(v.file, v.fname, source_content(srcs, v.file))
}

/// The bytes a stack's id is digested from: every emission's hash, in order.
pub open spec fn chain_hashes(srcs: Seq<(Seq<char>, Seq<u8>)>, chain: Seq<NodeView>) -> Seq<u8>
    decreases chain.len(),
{
    if chain.len() == 0 {
        seq![]
    } else {
        chain_hashes(srcs, chain.drop_last()) + node_emit(srcs, chain.last()).hash
    }
}

/// The id of a stack: the first 16 hex digits of the digest of its emissions.
pub open spec fn stack_id(srcs: Seq<(Seq<char>, Seq<u8>)>, chain: Seq<NodeView>) -> Seq<char> {
    hex_bytes(sha3_256(chain_hashes(srcs, chain))).take(16)
}

/// The emission records of the chain's nodes.
pub open spec fn chain_emits(srcs: Seq<(Seq<char>, Seq<u8>)>, chain: Seq<NodeView>) -> Seq<AdapterEmitView> {
    chain.map_values(|v: NodeView| node_emit(srcs, v))
}

/// The foreign functions of the chain's nodes.
pub open spec fn chain_ffi(chain: Seq<NodeView>) -> Seq<Seq<char>> {
    chain.map_values(|v: NodeView| go_handle(v.file, v.fname))
}

/// A stack file: the header, a blank line, the chain's code, and the closing brace.
pub open spec fn stack_file(
    srcs: Seq<(Seq<char>, Seq<u8>)>,
    id: Seq<char>,
    time: Seq<char>,
    target: Seq<char>,
    r: RouteView,
) -> Seq<char> {
    stack_header(id, time, target, r, chain_emits(srcs, r.chain), chain_ffi(r.chain)) + "\n"@ + chain_code(r.chain)
        + "}\n"@
}

/// Appends a header row.
pub fn push_row(out: &mut String, text: &str)
    ensures
        final(out)@ == old(out)@ + header_row(text@),
{
    reveal(header_row);
    out.append("| ");
    let n = text.unicode_len();
    let ghost mid = out@;
    if n > 76 {
        out.append(text.substring_char(0, 73));
        out.append("...");
        proof {
            reveal_strlit("...");
        }
        assert(out@ =~= mid + text@.take(73) + "..."@ + spaces(0));
    } else {
        out.append(text);
        let mut k: usize = n;
        while k < 76
            invariant
                n <= k <= 76,
                n == text@.len(),
                out@ == mid + text@ + spaces((k - n) as nat),
            decreases 76 - k,
        {
            push_char(out, ' ');
            assert(spaces((k + 1 - n) as nat) =~= spaces((k - n) as nat).push(' '));
            k = k + 1;
        }
    }
    out.append(" |\n");
    assert(out@ =~= old(out)@ + header_row(text@));
}


/// Appends a position counted from one, with at least two digits.
fn push_two_digits(out: &mut String, n: usize)
    ensures
        final(out)@ == old(out)@ + two_digits(n as nat),
{
    if n < 10 {
        out.append("0");
    }
    push_decimal(out, n as u64);
}

/// The parameters of a node as `name: type`.
fn param_parts(params: &Vec<(String, String)>) -> (r: Vec<String>)
    ensures
        r@.map_values(|p: String| p@) == param_texts(params@.map_values(|p: (String, String)| (p.0@, p.1@))),
{
    let ghost ps = params@.map_values(|p: (String, String)| (p.0@, p.1@));
    let mut parts: Vec<String> = Vec::new();
    let mut i: usize = 0;
    while i < params.len()
        invariant
            i <= params@.len(),
            ps == params@.map_values(|p: (String, String)| (p.0@, p.1@)),
            parts@.len() == i,
            forall|j: int| 0 <= j < i ==> (#[trigger] parts@[j])@ == ps[j].0 + ": "@ + ps[j].1,
        decreases params@.len() - i,
    {
        let mut p = params[i].0.clone();
        p.append(": ");
        p.append(params[i].1.as_str());
        assert(p@ == ps[i as int].0 + ": "@ + ps[i as int].1);
        parts.push(p);
        i = i + 1;
    }
    assert(parts@.map_values(|p: String| p@) =~= param_texts(ps));
    parts
}

/// Appends the rows that describe a node of the chain at a position.
fn push_node_rows(out: &mut String, idx: usize, c: &Node)
    requires
        idx < usize::MAX,
    ensures
        final(out)@ == old(out)@ + node_rows(idx as nat, c@),
{
    let mut t = String::from_str(" [");
    push_two_digits(&mut t, idx + 1);
    t.append("] ");
    if c.is_middleware() {
        t.append("MIDDLEWARE");
    } else {
        t.append("ENDPOINT");
    }
    t.append(" -> ");
    t.append(c.get_src_path());
    assert(t@ =~= " ["@ + two_digits((idx + 1) as nat) + "] "@ + (if c@.method is None {
        "MIDDLEWARE"@
    } else {
        "ENDPOINT"@
    }) + " -> "@ + c@.file);
    push_row(out, t.as_str());
    let mut t2 = String::from_str("      Func:  ");
    t2.append(c.get_name());
    t2.append(" | Flags: ");
    let f = c.get_flags();
    if f.is_empty() {
        t2.append("None");
    } else {
        let ft = f.to_text();
        t2.append(ft.as_str());
    }
    assert(t2@ =~= "      Func:  "@ + c@.fname + " | Flags: "@ + flags_shown(c@.flags));
    push_row(out, t2.as_str());
    let params = c.get_params();
    if params.len() > 0 {
        let parts = param_parts(params);
        let mut t3 = String::from_str("      Args:  (");
        push_joined(&mut t3, &parts, ", ");
        t3.append(")");
        assert(t3@ =~= "      Args:  ("@ + join(param_texts(c@.params), ", "@) + ")"@);
        push_row(out, t3.as_str());
    } else {
        push_row(out, "      Args:  None");
    }
    let ret = c.get_returns();
    if ret.len() > 0 {
        let mut t4 = String::from_str("      Ret:   ");
        push_joined(&mut t4, ret, ", ");
        assert(t4@ =~= "      Ret:   "@ + join(c@.ret, ", "@));
        push_row(out, t4.as_str());
    }
    proof {
        reveal_strlit("");
        assert(""@ =~= Seq::<char>::empty());
    }
    push_row(out, "");
    assert(out@ =~= old(out)@ + node_rows(idx as nat, c@));
}

/// Appends the rows that describe what was emitted for a node at a position.
fn push_artifact_rows(out: &mut String, idx: usize, c: &Node, e: &AdapterEmit)
    requires
        idx < usize::MAX,
    ensures
        final(out)@ == old(out)@ + artifact_rows(idx as nat, c@, e@),
{
    let mut t = String::from_str(" [");
    push_two_digits(&mut t, idx + 1);
    t.append("] Layer: ");
    t.append(c.get_src_path());
    t.append(" (");
    if c.is_middleware() {
        t.append("MID");
    } else {
        t.append("END");
    }
    t.append(")");
    assert(t@ =~= " ["@ + two_digits((idx + 1) as nat) + "] Layer: "@ + c@.file + " ("@ + (if c@.method is None {
        "MID"@
    } else {
        "END"@
    }) + ")"@);
    push_row(out, t.as_str());
    let mut t2 = String::from_str("      Version: ");
    t2.append(e.get_version());
    assert(t2@ =~= "      Version: "@ + e@.version);
    push_row(out, t2.as_str());
    let mut t3 = String::from_str("    Hash: ");
    let h = e.get_hash_str();
    t3.append(h.as_str());
    assert(t3@ =~= "    Hash: "@ + hex_bytes(e@.hash));
    push_row(out, t3.as_str());
    proof {
        reveal_strlit("");
        assert(""@ =~= Seq::<char>::empty());
    }
    push_row(out, "");
    assert(out@ =~= old(out)@ + artifact_rows(idx as nat, c@, e@));
}

/// Appends the start of a stack header.
fn push_header_intro(out: &mut String, id: &str, time: &str, target: &str)
    ensures
        final(out)@ == old(out)@ + header_intro(id@, time@, target@),
{
    proof {
        reveal_strlit("");
        assert(""@ =~= Seq::<char>::empty());
    }
    out.append(STACK_LOGO);
    out.append("\n");
    push_row(out, "");
    out.append(STACK_RULE);
    out.append("\n");
    let mut t = String::from_str("OmniCom V");
    t.append(OmnicomCtx::OMNI_VERSION);
    assert(t@ =~= "OmniCom V"@ + "0.0.1"@);
    push_row(out, t.as_str());
    let mut t = String::from_str("Stack ID:  ");
    t.append(id);
    assert(t@ =~= "Stack ID:  "@ + id@);
    push_row(out, t.as_str());
    let mut t = String::from_str("Generated: ");
    t.append(time);
    assert(t@ =~= "Generated: "@ + time@);
    push_row(out, t.as_str());
    let mut t = String::from_str("Target: ");
    t.append(target);
    assert(t@ =~= "Target: "@ + target@);
    push_row(out, t.as_str());
    push_row(out, "");
    push_row(out, " *** DO NOT MODIFY ***");
    push_row(out, " Auto-generated code. Manual edits will be lost during build.");
    push_row(out, "");
    out.append(STACK_RULE);
    out.append("\n");
    assert(out@ =~= old(out)@ + header_intro(id@, time@, target@));
}

/// Appends the route part of a stack header.
fn push_header_route(out: &mut String, r: &Route)
    ensures
        final(out)@ == old(out)@ + header_route(r@),
{
    let ghost chain = r@.chain;
    let mut t = String::from_str("TARGET ROUTE: ");
    let m = r.method.to_text();
    t.append(m.as_str());
    t.append(" ");
    let p = r.get_path_str();
    t.append(p.as_str());
    assert(t@ =~= "TARGET ROUTE: "@ + method_text(r@.method) + " "@ + path_text(r@.path));
    push_row(out, t.as_str());
    let n = node_vec_len(&r.chain);
    let mut mw: usize = 0;
    let mut i: usize = 0;
    proof {
        assert(chain.take(0) =~= Seq::<NodeView>::empty());
    }
    while i < n
        invariant
            i <= n,
            n == chain.len(),
            chain == r@.chain,
            mw == middleware_count(chain.take(i as int)),
            mw <= i,
        decreases n - i,
    {
        let c = node_vec_get(&r.chain, i);
        assert(chain[i as int] == c@);
        assert(chain.take(i + 1).drop_last() =~= chain.take(i as int));
        if c.is_middleware() {
            mw = mw + 1;
        }
        i = i + 1;
    }
    assert(chain.take(n as int) =~= chain);
    let mut t2 = String::from_str("CHAIN LENGTH: ");
    push_decimal(&mut t2, n as u64);
    t2.append(" (");
    push_decimal(&mut t2, mw as u64);
    t2.append(" Middleware, 1 Endpoint)");
    assert(t2@ =~= "CHAIN LENGTH: "@ + decimal(chain.len()) + " ("@ + decimal(middleware_count(chain))
        + " Middleware, 1 Endpoint)"@);
    push_row(out, t2.as_str());
    proof {
        reveal_strlit("");
        assert(""@ =~= Seq::<char>::empty());
    }
    push_row(out, "");
    push_row(out, " --- STACK TRACE & NODE DETAILS ---");
    let ghost mid = out@;
    let mut i: usize = 0;
    proof {
        assert(chain.take(0) =~= Seq::<NodeView>::empty());
    }
    while i < n
        invariant
            i <= n,
            n == chain.len(),
            chain == r@.chain,
            out@ == mid + chain_rows(chain.take(i as int)),
        decreases n - i,
    {
        let c = node_vec_get(&r.chain, i);
        assert(chain[i as int] == c@);
        push_node_rows(out, i, c);
        assert(chain.take(i + 1).drop_last() =~= chain.take(i as int));
        assert(out@ =~= mid + chain_rows(chain.take(i + 1)));
        i = i + 1;
    }
    out.append(STACK_RULE);
    out.append("\n");
    assert(out@ =~= old(out)@ + header_route(r@));
}

/// Appends the artifacts part of a stack header.
fn push_header_artifacts(out: &mut String, r: &Route, emits: &Vec<AdapterEmit>)
    requires
        emits@.len() <= r@.chain.len(),
    ensures
        final(out)@ == old(out)@ + header_artifacts(r@, emits@.map_values(|e: AdapterEmit| e@)),
{
    let ghost chain = r@.chain;
    let ghost es = emits@.map_values(|e: AdapterEmit| e@);
    push_row(out, " --- GENERATION ARTIFACTS ---");
    let ghost mid = out@;
    let mut i: usize = 0;
    proof {
        assert(es.take(0) =~= Seq::<AdapterEmitView>::empty());
    }
    while i < emits.len()
        invariant
            i <= emits@.len(),
            emits@.len() <= chain.len(),
            chain == r@.chain,
            es == emits@.map_values(|e: AdapterEmit| e@),
            out@ == mid + chain_artifacts(chain, es.take(i as int)),
        decreases emits@.len() - i,
    {
        let c = node_vec_get(&r.chain, i);
        assert(chain[i as int] == c@);
        push_artifact_rows(out, i, c, &emits[i]);
        assert(es.take(i + 1).drop_last() =~= es.take(i as int));
        assert(out@ =~= mid + chain_artifacts(chain, es.take(i + 1)));
        i = i + 1;
    }
    assert(es.take(emits@.len() as int) =~= es);
    out.append(STACK_FOOTER);
    out.append("\n");
    assert(out@ =~= old(out)@ + header_artifacts(r@, es));
}

/// The header of a stack: its id, when and for which target it was generated,
/// the route and its chain, the emission for each node (in the chain's order),
/// and the foreign functions to declare.
pub fn stack_header_text(
    id: &str,
    time: &str,
    target: &str,
    r: &Route,
    emits: &Vec<AdapterEmit>,
    ffi: &Vec<String>,
) -> (s: String)
    requires
        emits@.len() <= r@.chain.len(),
    ensures
        s@ == stack_header(id@, time@, target@, r@, emits@.map_values(|e: AdapterEmit| e@), deps_view(*ffi)),
{
    let mut out = String::new();
    push_header_intro(&mut out, id, time, target);
    push_header_route(&mut out, r);
    push_header_artifacts(&mut out, r, emits);
    let ghost before_ffi = out@;
    if ffi.len() > 0 {
        out.append("extern \"C\" {\n");
        let ghost fs = deps_view(*ffi);
        let ghost mid = out@;
        let mut i: usize = 0;
        proof {
            assert(fs.take(0) =~= Seq::<Seq<char>>::empty());
        }
        while i < ffi.len()
            invariant
                i <= ffi@.len(),
                fs == deps_view(*ffi),
                out@ == mid + ffi_lines(fs.take(i as int)),
            decreases ffi@.len() - i,
        {
            out.append("    ");
            out.append(ffi[i].as_str());
            out.append(";\n");
            assert(fs.take(i + 1).drop_last() =~= fs.take(i as int));
            assert(out@ =~= mid + ffi_lines(fs.take(i + 1)));
            i = i + 1;
        }
        assert(fs.take(ffi@.len() as int) =~= fs);
        out.append("}\n");
    }
    assert(out@ =~= before_ffi + ffi_block(deps_view(*ffi)));
    out.append("\npub fn ");
    out.append(id);
    out.append("() {\n");
    assert(out@ =~= stack_header(id@, time@, target@, r@, emits@.map_values(|e: AdapterEmit| e@), deps_view(*ffi)));
    out
}


/// Whether a source of that path was supplied.
pub open spec fn has_source(srcs: Seq<(Seq<char>, Seq<u8>)>, path: Seq<char>) -> bool {
    exists|i: int| 0 <= i < srcs.len() && (#[trigger] srcs[i]).0 == path
}

/// Why a node cannot be emitted, if it cannot: no adapter handles its source (the
/// Go adapter handles `.go` files), or its source was not supplied.
pub open spec fn node_fault(adapters: nat, srcs: Seq<(Seq<char>, Seq<u8>)>, v: NodeView) -> Option<Seq<char>> {
    if !(adapters > 0 && extension_of(v.file) == Some("go"@)) {
        Some("Missing LanguageAdaptor for source path: "@ + v.file)
    } else if !has_source(srcs, v.file) {
        Some("Unable to read source: "@ + v.file)
    } else {
        None
    }
}

/// The fault of the first node of the chain that cannot be emitted.
pub open spec fn chain_fault(adapters: nat, srcs: Seq<(Seq<char>, Seq<u8>)>, chain: Seq<NodeView>) -> Option<
    Seq<char>,
>
    decreases chain.len(),
{
    if chain.len() == 0 {
        None
    } else {
        match chain_fault(adapters, srcs, chain.drop_last()) {
            Some(e) => Some(e),
            None => node_fault(adapters, srcs, chain.last()),
        }
    }
}

/// A fault in a prefix of the chain is the chain's first fault.
proof fn lemma_fault_prefix(adapters: nat, srcs: Seq<(Seq<char>, Seq<u8>)>, chain: Seq<NodeView>, k: int)
    requires
        0 <= k <= chain.len(),
        chain_fault(adapters, srcs, chain.take(k)) is Some,
    ensures
        chain_fault(adapters, srcs, chain) == chain_fault(adapters, srcs, chain.take(k)),
    decreases chain.len() - k,
{
    if k < chain.len() {
        assert(chain.take(k + 1).drop_last() =~= chain.take(k));
        lemma_fault_prefix(adapters, srcs, chain, k + 1);
    } else {
        assert(chain.take(k) =~= chain);
    }
}

/// A stack's id for the digest of its emissions: the first 16 hex digits.
pub fn stack_id_from_digest(digest: &[u8]) -> (r: String)
    requires
        digest@.len() >= 8,
    ensures
        r@ == hex_bytes(digest@).take(16),
{
    let hex = hex_encode(digest);
    String::from_str(hex.as_str().substring_char(0, 16))
}

/// A generated stack file: the stack's id and the file's text.
pub struct StackFile {
    pub id: String,
    pub text: String,
}

/// Generates the stacks of routes: per route, the code that runs its handler
/// chain through the registered adapters, kept as a file named by the stack's id.
pub struct StackGenerator {
    adapters: Vec<GoAdapter>,
    pregen_plugins: Vec<String>,
    postgen_plugins: Vec<String>,
    sources: Vec<(String, Vec<u8>)>,
    target: String,
    time: String,
    files: Vec<StackFile>,
}

/// A stack generator as plain values: how many adapters are registered, the
/// handler sources supplied, the target it generates for, the build time written
/// into stack headers, and the stack files so far (id and text).
pub struct StackGenView {
    pub adapters: nat,
    pub sources: Seq<(Seq<char>, Seq<u8>)>,
    pub target: Seq<char>,
    pub time: Seq<char>,
    pub files: Seq<(Seq<char>, Seq<char>)>,
}

impl View for StackGenerator {
    type V = StackGenView;

    closed spec fn view(&self) -> StackGenView {
        StackGenView {
            adapters: self.adapters@.len(),
            sources: self.sources@.map_values(|e: (String, Vec<u8>)| (e.0@, e.1@)),
            target: self.target@,
            time: self.time@,
            files: self.files@.map_values(|f: StackFile| (f.id@, f.text@)),
        }
    }
}

impl Default for StackGenerator {
    /// No adapters, no sources, an empty target and an empty build time.
    fn default() -> (r: Self)
        ensures
            r@.adapters == 0,
            r@.sources.len() == 0,
            r@.target.len() == 0,
            r@.time.len() == 0,
            r@.files.len() == 0,
    {
        StackGenerator {
            adapters: Vec::new(),
            pregen_plugins: Vec::new(),
            postgen_plugins: Vec::new(),
            sources: Vec::new(),
            target: String::new(),
            time: String::new(),
            files: Vec::new(),
        }
    }
}

impl StackGenerator {
    /// Registers the Go adapter, made by default.
    pub fn register_default_adapter(&mut self)
        ensures
            final(self)@ == (StackGenView { adapters: old(self)@.adapters + 1, ..old(self)@ }),
    {
        self.register_adapter(GoAdapter::default());
    }

    /// Registers an adapter after those registered before.
    pub fn register_adapter(&mut self, adapter: GoAdapter)
        ensures
            final(self)@ == (StackGenView { adapters: old(self)@.adapters + 1, ..old(self)@ }),
    {
        self.adapters.push(adapter);
        assert(self@.sources =~= old(self)@.sources);
        assert(self@.files =~= old(self)@.files);
    }

    /// Supplies the text of a handler source under its path.
    pub fn add_source(&mut self, path: String, content: Vec<u8>)
        ensures
            final(self)@ == (StackGenView { sources: old(self)@.sources.push((path@, content@)), ..old(self)@ }),
    {
        let ghost p = path@;
        let ghost c = content@;
        self.sources.push((path, content));
        assert(self@.sources =~= old(self)@.sources.push((p, c)));
        assert(self@.files =~= old(self)@.files);
    }

    /// Sets the target named in stack headers.
    pub fn set_target(&mut self, target: String)
        ensures
            final(self)@ == (StackGenView { target: target@, ..old(self)@ }),
    {
        self.target = target;
        assert(self@.sources =~= old(self)@.sources);
        assert(self@.files =~= old(self)@.files);
    }

    /// Sets the build time written into stack headers.
    pub fn set_time(&mut self, time: String)
        ensures
            final(self)@ == (StackGenView { time: time@, ..old(self)@ }),
    {
        self.time = time;
        assert(self@.sources =~= old(self)@.sources);
        assert(self@.files =~= old(self)@.files);
    }

    /// The stack files generated so far.
    pub fn get_files(&self) -> (r: &Vec<StackFile>)
        ensures
            r@.map_values(|f: StackFile| (f.id@, f.text@)) == self@.files,
    {
        &self.files
    }

    /// The first supplied source of that path.
    fn find_source(&self, path: &str) -> (r: Option<usize>)
        ensures
            match r {
                Some(i) => first_source(self@.sources, path@, i as int),
                None => !has_source(self@.sources, path@),
            },
    {
        let mut i: usize = 0;
        while i < self.sources.len()
            invariant
                i <= self.sources@.len(),
                forall|j: int| 0 <= j < i ==> (#[trigger] self@.sources[j]).0 != path@,
            decreases self.sources@.len() - i,
        {
            assert(self@.sources[i as int].0 == self.sources@[i as int].0@);
            if str_eq(self.sources[i].0.as_str(), path) {
                return Some(i);
            }
            i = i + 1;
        }
        None
    }

    /// The first registered adapter that handles a source.
    fn find_adapter(&self, path: &str) -> (r: Option<usize>)
        ensures
            match r {
                Some(k) => k < self@.adapters && extension_of(path@) == Some("go"@),
                None => !(self@.adapters > 0 && extension_of(path@) == Some("go"@)),
            },
    {
        let mut k: usize = 0;
        while k < self.adapters.len()
            invariant
                k <= self.adapters@.len(),
                k > 0 ==> extension_of(path@) != Some("go"@),
            decreases self.adapters@.len() - k,
        {
            if self.adapters[k].handles(path) {
                return Some(k);
            }
            k = k + 1;
        }
        None
    }

    /// Emits the code for every node of a route's chain, in order: the code, the
    /// emission records, and the stack context they filled. Fails at the first node
    /// that cannot be emitted.
    fn emit_chain(&mut self, ctx: &mut OmnicomCtx, r: &Route) -> (res: Result<
        (String, Vec<AdapterEmit>, AdapterStackCtx),
        String,
    >)
        ensures
            final(self)@ == old(self)@,
            match res {
                Ok((code, emits, actx)) => chain_fault(old(self)@.adapters, old(self)@.sources, r@.chain) is None
                    && code@ == chain_code(r@.chain) && emits@.map_values(|e: AdapterEmit| e@) == chain_emits(
                    old(self)@.sources,
                    r@.chain,
                ) && deps_view(actx.ffi) == chain_ffi(r@.chain),
                Err(e) => chain_fault(old(self)@.adapters, old(self)@.sources, r@.chain) == Some(e@),
            },
    {
        let ghost chain = r@.chain;
        let n = node_vec_len(&r.chain);
        let mut code = String::new();
        let mut emits: Vec<AdapterEmit> = Vec::new();
        let mut actx = AdapterStackCtx::new();
        let mut i: usize = 0;
        proof {
            assert(chain.take(0) =~= Seq::<NodeView>::empty());
            assert(deps_view(actx.ffi) =~= Seq::<Seq<char>>::empty());
        }
        while i < n
            invariant
                i <= n,
                n == chain.len(),
                chain == r@.chain,
                self@ == old(self)@,
                chain_fault(self@.adapters, self@.sources, chain.take(i as int)) is None,
                code@ == chain_code(chain.take(i as int)),
                emits@.map_values(|e: AdapterEmit| e@) == chain_emits(self@.sources, chain.take(i as int)),
                deps_view(actx.ffi) == chain_ffi(chain.take(i as int)),
            decreases n - i,
        {
            let c = node_vec_get(&r.chain, i);
            let ghost v = c@;
            assert(chain[i as int] == v);
            assert(chain.take(i + 1).drop_last() =~= chain.take(i as int));
            assert(chain.take(i + 1).last() == v);
            let path = c.get_src_path();
            let k = match self.find_adapter(path) {
                Some(k) => k,
                None => {
                    let mut e = String::from_str("Missing LanguageAdaptor for source path: ");
                    e.append(path);
                    proof {
                        lemma_fault_prefix(self@.adapters, self@.sources, chain, i + 1);
                    }
                    return Err(e);
                },
            };
            let si = match self.find_source(path) {
                Some(si) => si,
                None => {
                    let mut e = String::from_str("Unable to read source: ");
                    e.append(path);
                    proof {
                        lemma_fault_prefix(self@.adapters, self@.sources, chain, i + 1);
                    }
                    return Err(e);
                },
            };
            proof {
                assert(self@.sources[si as int].0 == v.file);
                assert(has_source(self@.sources, v.file));
                let w = choose|w: int| first_source(self@.sources, v.file, w);
                if w < si {
                    assert(self@.sources[w].0 != v.file);
                } else if si < w {
                    assert(self@.sources[si as int].0 != v.file);
                }
                assert(source_content(self@.sources, v.file) == self.sources@[si as int].1@);
            }
            let adapter = &self.adapters[k];
            let mut note = String::from_str("// Generated via ");
            note.append(adapter.get_name());
            note.append(" V");
            note.append(adapter.get_version());
            assert(note@ =~= "// Generated via GoAdapter V0.0.1"@) by {
                reveal_strlit("// Generated via ");
                reveal_strlit(" V");
                reveal_strlit("GoAdapter");
                reveal_strlit("0.0.1");
                reveal_strlit("// Generated via GoAdapter V0.0.1");
            }
            push_line(&mut code, 1, note.as_str());
            let (_indent, em) = adapter.emit(ctx, &mut code, &mut actx, 1, c, self.sources[si].1.as_slice());
            let ghost es0 = emits@.map_values(|e: AdapterEmit| e@);
            emits.push(em);
            proof {
                assert(emits@.map_values(|e: AdapterEmit| e@) =~= es0.push(node_emit(self@.sources, v)));
                assert(chain_emits(self@.sources, chain.take(i + 1)) =~= chain_emits(self@.sources, chain.take(i as int)).push(
                    node_emit(self@.sources, v),
                ));
                assert(chain_ffi(chain.take(i + 1)) =~= chain_ffi(chain.take(i as int)).push(go_handle(v.file, v.fname)));
            }
            assert(code@ =~= chain_code(chain.take(i + 1)));
            i = i + 1;
        }
        assert(chain.take(n as int) =~= chain);
        Ok((code, emits, actx))
    }

    /// Generates the stack of a route: the code that runs its chain, under a header
    /// that records the route, the chain and the emissions; the stack's id is the
    /// start of the digest of the emissions' hashes. Keeps the stack's file and adds
    /// the stack to `gr` under the route's method. Fails, changing nothing, when a
    /// node of the chain has no adapter or no supplied source.
    pub fn generate_stack(&mut self, ctx: &mut OmnicomCtx, r: &Route, gr: &mut GenRoute) -> (res: Result<
        (),
        String,
    >)
        ensures
            match res {
                Ok(()) => {
                    &&& chain_fault(old(self)@.adapters, old(self)@.sources, r@.chain) is None
                    &&& final(gr)@.path == old(gr)@.path
                    &&& final(gr)@.stack == old(gr)@.stack.push((r@.method, stack_id(old(self)@.sources, r@.chain)))
                    &&& final(self)@.adapters == old(self)@.adapters
                    &&& final(self)@.sources == old(self)@.sources
                    &&& final(self)@.target == old(self)@.target
                    &&& final(self)@.time == old(self)@.time
                    &&& final(self)@.files == old(self)@.files.push(
                        (stack_id(old(self)@.sources, r@.chain), stack_file(old(self)@.sources, stack_id(old(self)@.sources, r@.chain), old(self)@.time, old(self)@.target, r@)),
                    )
                },
                Err(e) => {
                    &&& chain_fault(old(self)@.adapters, old(self)@.sources, r@.chain) == Some(e@)
                    &&& final(gr)@ == old(gr)@
                    &&& final(self)@ == old(self)@
                },
            },
    {
        let ghost chain = r@.chain;
        let (code, emits, actx) = match self.emit_chain(ctx, r) {
            Ok(x) => x,
            Err(e) => {
                return Err(e);
            },
        };
        let mut hashes: Vec<u8> = Vec::new();
        let mut i: usize = 0;
        let ghost es = emits@.map_values(|e: AdapterEmit| e@);
        proof {
            assert(chain.take(0) =~= Seq::<NodeView>::empty());
            assert(es.len() == chain_emits(old(self)@.sources, chain).len());
        }
        while i < emits.len()
            invariant
                i <= emits@.len(),
                es == emits@.map_values(|e: AdapterEmit| e@),
                es == chain_emits(old(self)@.sources, chain),
                emits@.len() == chain.len(),
                hashes@ == chain_hashes(old(self)@.sources, chain.take(i as int)),
            decreases emits@.len() - i,
        {
            push_bytes(&mut hashes, emits[i].get_hash().as_slice());
            assert(chain.take(i + 1).drop_last() =~= chain.take(i as int));
            assert(es[i as int] == node_emit(old(self)@.sources, chain[i as int]));
            i = i + 1;
        }
        assert(chain.take(emits@.len() as int) =~= chain);
        let digest = sha3_256_digest(hashes.as_slice());
        let id = stack_id_from_digest(digest.as_slice());
        assert(id@ =~= stack_id(old(self)@.sources, chain));
        let header = stack_header_text(id.as_str(), self.time.as_str(), self.target.as_str(), r, &emits, &actx.ffi);
        let mut text = header;
        text.append("\n");
        text.append(code.as_str());
        text.append("}\n");
        assert(text@ =~= stack_file(self@.sources, id@, self@.time, self@.target, r@));
        let ghost files0 = self@.files;
        self.files.push(StackFile { id: id.clone(), text });
        assert(self@.files =~= files0.push((stack_id(old(self)@.sources, chain), stack_file(old(self)@.sources, id@, old(self)@.time, old(self)@.target, r@))));
        assert(self@.sources =~= old(self)@.sources);
        gr.push_stack(r.method, id);
        Ok(())
    }
}


/// Stacks are content-addressed: two chains whose nodes have the same source
/// files, function names and source texts, in order, get the same stack id, the
/// same emission records, the same code and the same foreign functions, whatever
/// the nodes' methods, parameters, results or flags.
pub proof fn law_stack_content_addressed(
    s1: Seq<(Seq<char>, Seq<u8>)>,
    c1: Seq<NodeView>,
    s2: Seq<(Seq<char>, Seq<u8>)>,
    c2: Seq<NodeView>,
)
    requires
        c1.len() == c2.len(),
        forall|i: int|
            0 <= i < c1.len() ==> (#[trigger] c1[i]).file == c2[i].file && c1[i].fname == c2[i].fname
                && source_content(s1, c1[i].file) == source_content(s2, c2[i].file),
    ensures
        chain_hashes(s1, c1) == chain_hashes(s2, c2),
        stack_id(s1, c1) == stack_id(s2, c2),
        chain_emits(s1, c1) == chain_emits(s2, c2),
        chain_code(c1) == chain_code(c2),
        chain_ffi(c1) == chain_ffi(c2),
    decreases c1.len(),
{
    if c1.len() > 0 {
        let n = c1.len() - 1;
        assert(c1.last() == c1[n as int]);
        assert(c2.last() == c2[n as int]);
        law_stack_content_addressed(s1, c1.drop_last(), s2, c2.drop_last());
    }
    assert(chain_ffi(c1) =~= chain_ffi(c2));
    assert(chain_emits(s1, c1) =~= chain_emits(s2, c2));
}

/// A stack runs its chain in order: the code for a chain is the code for any
/// prefix of it followed by the code for the rest, and the code for one node is
/// the adapter's note and the call of that node's handler.
pub proof fn law_chain_code_in_order(chain: Seq<NodeView>, k: int)
    requires
        0 <= k <= chain.len(),
    ensures
        chain_code(chain) == chain_code(chain.take(k)) + chain_code(chain.skip(k)),
        chain.len() > 0 ==> chain_code(chain.take(1)) == line(1, "// Generated via GoAdapter V0.0.1"@) + go_rows(
            1,
            go_handle(chain[0].file, chain[0].fname),
        ),
    decreases chain.len(),
{
    if chain.len() > 0 {
        let one = chain.take(1);
        assert(one.drop_last() =~= Seq::<NodeView>::empty());
        assert(one.last() == chain[0]);
        assert(chain_code(one.drop_last()) == Seq::<char>::empty());
        assert(chain_code(one) =~= line(1, "// Generated via GoAdapter V0.0.1"@) + go_rows(
            1,
            go_handle(chain[0].file, chain[0].fname),
        ));
    }
    if k == chain.len() {
        assert(chain.take(k) =~= chain);
        assert(chain.skip(k) =~= Seq::<NodeView>::empty());
        assert(chain_code(chain) =~= chain_code(chain.take(k)) + chain_code(chain.skip(k)));
    } else {
        let dl = chain.drop_last();
        law_chain_code_in_order(dl, k);
        assert(dl.take(k) =~= chain.take(k));
        let sk = chain.skip(k);
        assert(sk.drop_last() =~= dl.skip(k));
        assert(sk.last() == chain.last());
        assert(chain_code(chain) =~= chain_code(chain.take(k)) + chain_code(chain.skip(k)));
    }
}

/// A stack's id is digested from its emissions in chain order: the bytes for a
/// chain are those for any prefix of it followed by those for the rest, and the
/// bytes for one node are that node's emission hash.
pub proof fn law_chain_hashes_in_order(srcs: Seq<(Seq<char>, Seq<u8>)>, chain: Seq<NodeView>, k: int)
    requires
        0 <= k <= chain.len(),
    ensures
        chain_hashes(srcs, chain) == chain_hashes(srcs, chain.take(k)) + chain_hashes(srcs, chain.skip(k)),
        chain.len() > 0 ==> chain_hashes(srcs, chain.take(1)) == node_emit(srcs, chain[0]).hash,
    decreases chain.len(),
{
    if chain.len() > 0 {
        let one = chain.take(1);
        assert(one.drop_last() =~= Seq::<NodeView>::empty());
        assert(one.last() == chain[0]);
        assert(chain_hashes(srcs, one.drop_last()) == Seq::<u8>::empty());
        assert(chain_hashes(srcs, one) =~= node_emit(srcs, chain[0]).hash);
    }
    if k == chain.len() {
        assert(chain.take(k) =~= chain);
        assert(chain.skip(k) =~= Seq::<NodeView>::empty());
        assert(chain_hashes(srcs, chain) =~= chain_hashes(srcs, chain.take(k)) + chain_hashes(srcs, chain.skip(k)));
    } else {
        let dl = chain.drop_last();
        law_chain_hashes_in_order(srcs, dl, k);
        assert(dl.take(k) =~= chain.take(k));
        let sk = chain.skip(k);
        assert(sk.drop_last() =~= dl.skip(k));
        assert(sk.last() == chain.last());
        assert(chain_hashes(srcs, chain) =~= chain_hashes(srcs, chain.take(k)) + chain_hashes(srcs, chain.skip(k)));
    }
}

} // verus!
