//! The Go input adapter: a Go handler runs through a foreign function that the
//! generated stack calls; its source is carried along under a name derived from its
//! contents.
use vstd::prelude::*;
use vstd::utf8::encode_utf8;
use crate::ctx::OmnicomCtx;
use crate::hashes::{push_bytes, sha3_256, sha3_256_digest, shake128_8, shake128_tag};
use crate::languages::adapter::{
    deps_view, handles_recorded, stacks_view, Adapter, AdapterEmit, AdapterEmitView, AdapterStackCtx, InAdapter,
};
use crate::router::Node;
use crate::text::{hex_bytes, hex_encode, line, push_line};

verus! {

/// The extension of a path's file name (after its last dot), as `Path::extension`
/// of std computes it, when there is one.
pub uninterp spec fn extension_of(path: Seq<char>) -> Option<Seq<char>>;

/// `Path::extension` of std, read back as text (an extension of a path given as
/// text is text as well).
#[verifier::external_body]
pub(crate) fn path_extension(path: &str) -> (r: Option<String>)
    ensures
        match r {
            Some(e) => extension_of(path@) == Some(e@),
            None => extension_of(path@) is None,
        },
{
    match std::path::Path::new(path).extension() {
        Some(e) => e.to_str().map(str::to_owned),
        None => None,
    }
}

/// The foreign function that runs a handler: the package, the function's name, and
/// the hex digest of the file and function names.
pub open spec fn go_handle(file: Seq<char>, fname: Seq<char>) -> Seq<char> {
    "routes_"@ + fname + "_"@ + hex_bytes(sha3_256(encode_utf8(file + "-"@ + fname)))
}

/// The call of a handle.
pub open spec fn go_call(handle: Seq<char>) -> Seq<char> {
    "let res = "@ + handle + "();"@
}

/// The code that runs a handler: its call inside an `unsafe` block.
pub open spec fn go_rows(indent: nat, handle: Seq<char>) -> Seq<char> {
    line(indent, "unsafe {"@) + line(indent + 1, go_call(handle)) + line(indent, "}"@)
}

/// The hash of an emission: the digest of the source path, the rows written and
/// the handler's source, so that an edited source hashes differently.
pub open spec fn go_emit_hash(file: Seq<char>, handle: Seq<char>, content: Seq<u8>) -> Seq<u8> {
    sha3_256(
        encode_utf8(file) + encode_utf8("unsafe {"@) + encode_utf8(go_call(handle)) + encode_utf8("}"@) + content,
    )
}

/// The name a Go source is carried under: the hex tag of its contents.
pub open spec fn go_file_name(content: Seq<u8>) -> Seq<char> {
    hex_bytes(shake128_8(content)) + ".go"@
}

/// The emission record for a handler whose source is `content`.
pub open spec fn go_emit_view(file: Seq<char>, fname: Seq<char>, content: Seq<u8>) -> AdapterEmitView {
    let handle = go_handle(file, fname);
    AdapterEmitView {
        version: "1"@,
        hash: go_emit_hash(file, handle, content),
        src_path: file,
        func_name: fname,
        ctx: Map::<Seq<char>, Seq<char>>::empty().insert("handle"@, handle),
    }
}

/// The import of a stack's package.
pub open spec fn go_import(module: Seq<char>, name: Seq<char>) -> Seq<char> {
    "    __"@ + name + " \""@ + module + "/"@ + name + "\"\n"@
}

/// The export of one handler of a stack's package.
pub open spec fn go_export(name: Seq<char>, handle: Seq<char>, func: Seq<char>) -> Seq<char> {
    line(0, "//export "@ + handle) + line(0, "func "@ + handle + "() {"@) + line(
        1,
        "__"@ + name + "."@ + func + "(__"@ + name + ".OmniContext{});"@,
    ) + line(0, "}\n\n"@)
}

/// The exports of a stack's handlers, in order.
pub open spec fn go_exports_of(name: Seq<char>, emits: Seq<AdapterEmitView>) -> Seq<char>
    decreases emits.len(),
{
    if emits.len() == 0 {
        seq![]
    } else {
        go_exports_of(name, emits.drop_last()) + go_export(
            name,
            emits.last().ctx["handle"@],
            emits.last().func_name,
        )
    }
}

/// The imports of the stacks' packages.
pub open spec fn go_imports(module: Seq<char>, stacks: Seq<(Seq<char>, Seq<AdapterEmitView>)>) -> Seq<char>
    decreases stacks.len(),
{
    if stacks.len() == 0 {
        seq![]
    } else {
        go_imports(module, stacks.drop_last()) + go_import(module, stacks.last().0)
    }
}

/// The exports of all stacks.
pub open spec fn go_exports(stacks: Seq<(Seq<char>, Seq<AdapterEmitView>)>) -> Seq<char>
    decreases stacks.len(),
{
    if stacks.len() == 0 {
        seq![]
    } else {
        go_exports(stacks.drop_last()) + go_exports_of(stacks.last().0, stacks.last().1)
    }
}

/// The Go entry file that exports every handler of the stacks.
pub open spec fn go_main_text(module: Seq<char>, stacks: Seq<(Seq<char>, Seq<AdapterEmitView>)>) -> Seq<char> {
    "package main\nimport (\n    \"C\"\n    \"fmt\"\n"@ + go_imports(module, stacks) + ")\n\n"@ + go_exports(stacks)
        + "\nfunc main() {\n    fmt.Println(\"dont run me im sensitive\")\n}\n"@
}

/// The foreign function of a handler named `fname`, for the digest of its file and
/// function names.
pub fn handle_from_digest(fname: &str, digest: &[u8]) -> (r: String)
    ensures
        r@ == "routes_"@ + fname@ + "_"@ + hex_bytes(digest@),
{
    let pid = hex_encode(digest);
    let mut handle = String::from_str("routes_");
    handle.append(fname);
    handle.append("_");
    handle.append(pid.as_str());
    handle
}

/// The name a Go source is carried under, for the tag of its contents.
pub fn source_name_from_tag(tag: &[u8]) -> (r: String)
    ensures
        r@ == hex_bytes(tag@) + ".go"@,
{
    let mut name = hex_encode(tag);
    name.append(".go");
    name
}

/// The Go adapter: the generated Go code belongs to the module `module_name`.
pub struct GoAdapter {
    pub module_name: String,
}

impl Default for GoAdapter {
    /// The Go adapter for the module `omni`.
    fn default() -> (r: Self)
        ensures
            r.module_name@ == "omni"@,
    {
        GoAdapter { module_name: String::from_str("omni") }
    }
}

impl Adapter for GoAdapter {
    fn get_name(&self) -> (r: &'static str)
        ensures
            r@ == "GoAdapter"@,
    {
        "GoAdapter"
    }

    fn get_flags(&self) -> (r: u8)
        ensures
            r == 0,
    {
        0
    }
}

impl InAdapter for GoAdapter {
    /// Whether the adapter handles a source: one whose extension is `go`.
    fn handles(&self, p: &str) -> (r: bool)
        ensures
            r == (extension_of(p@) == Some("go"@)),
    {
        match path_extension(p) {
            Some(e) => crate::text::str_eq(e.as_str(), "go"),
            None => false,
        }
    }

    /// Emits the code that runs a handler at an indentation level, records the
    /// handler's foreign function and carries its source `content` along, and
    /// returns the indentation after the code with the emission record.
    fn emit(
        &self,
        ctx: &mut OmnicomCtx,
        writer: &mut String,
        actx: &mut AdapterStackCtx,
        indent: usize,
        n: &Node,
        content: &[u8],
    ) -> (r: (usize, AdapterEmit))
        ensures
            r.0 == indent,
            final(writer)@ == old(writer)@ + go_rows(indent as nat, go_handle(n@.file, n@.fname)),
            r.1@ == go_emit_view(n@.file, n@.fname, content@),
            deps_view(final(actx).ffi) == deps_view(old(actx).ffi).push(go_handle(n@.file, n@.fname)),
            final(actx).files_view() == old(actx).files_view().insert(
                go_file_name(content@),
                if old(actx).files_view().contains_key(go_file_name(content@)) {
                    old(actx).files_view()[go_file_name(content@)]
                } else {
                    Seq::<u8>::empty()
                } + content@,
            ),
    {
        let nd = match n {
            Node::Endpoint(nd, _) => nd,
            Node::Middleware(nd) => nd,
        };
        let ghost file = n@.file;
        let ghost fname = n@.fname;
        let mut key = nd.file.clone();
        key.append("-");
        key.append(nd.fname.as_str());
        let pdig = sha3_256_digest(key.as_str().as_bytes());
        let handle = handle_from_digest(nd.fname.as_str(), pdig.as_slice());
        assert(handle@ == go_handle(file, fname));
        let mut bytes: Vec<u8> = Vec::new();
        push_bytes(&mut bytes, nd.file.as_str().as_bytes());
        push_line(writer, indent, "unsafe {");
        push_bytes(&mut bytes, "unsafe {".as_bytes());
        let mut call = String::from_str("let res = ");
        call.append(handle.as_str());
        call.append("();");
        push_line(writer, indent + 1, call.as_str());
        push_bytes(&mut bytes, call.as_str().as_bytes());
        push_line(writer, indent, "}");
        push_bytes(&mut bytes, "}".as_bytes());
        assert(writer@ =~= old(writer)@ + go_rows(indent as nat, handle@));
        push_bytes(&mut bytes, content);
        assert(bytes@ =~= encode_utf8(file) + encode_utf8("unsafe {"@) + encode_utf8(go_call(handle@)) + encode_utf8(
            "}"@,
        ) + content@);
        let tag = shake128_tag(content);
        let file_name = source_name_from_tag(tag.as_slice());
        actx.file(file_name.as_str(), content);
        let hash = sha3_256_digest(bytes.as_slice());
        let mut em = AdapterEmit::new(nd.file.as_str(), nd.fname.clone(), String::from_str("1"), hash);
        em.set_ctx("handle", handle.as_str());
        let ghost ffi0 = deps_view(actx.ffi);
        actx.ffi.push(handle);
        assert(deps_view(actx.ffi) =~= ffi0.push(go_handle(file, fname)));
        assert(em@ == go_emit_view(file, fname, content@));
        (indent, em)
    }

    /// The Go entry file for the stacks: it imports each stack's package and
    /// exports each handler as a foreign function. Refused for no stacks.
    fn configure_build(&mut self, ctx: &mut OmnicomCtx, stacks: &Vec<(String, Vec<AdapterEmit>)>) -> (r: Result<
        String,
        String,
    >)
        ensures
            stacks@.len() == 0 ==> (r matches Err(e) && e@ == "Stack list is empty"@),
            stacks@.len() > 0 ==> (r matches Ok(s) && s@ == go_main_text(old(self).module_name@, stacks_view(stacks@))),
    {
        if stacks.len() == 0 {
            return Err(String::from_str("Stack list is empty"));
        }
        let ghost sv = stacks_view(stacks@);
        let mut file = String::from_str("package main\nimport (\n    \"C\"\n    \"fmt\"\n");
        let mut exports = String::new();
        let ghost head = file@;
        let mut i: usize = 0;
        proof {
            assert(sv.take(0) =~= Seq::<(Seq<char>, Seq<AdapterEmitView>)>::empty());
        }
        while i < stacks.len()
            invariant
                i <= stacks@.len(),
                sv == stacks_view(stacks@),
                handles_recorded(sv),
                file@ == head + go_imports(self.module_name@, sv.take(i as int)),
                exports@ == go_exports(sv.take(i as int)),
            decreases stacks@.len() - i,
        {
            let name = &stacks[i].0;
            let emits = &stacks[i].1;
            file.append("    __");
            file.append(name.as_str());
            file.append(" \"");
            file.append(self.module_name.as_str());
            file.append("/");
            file.append(name.as_str());
            file.append("\"\n");
            let ghost ex0 = exports@;
            let mut j: usize = 0;
            proof {
                assert(sv[i as int].1.take(0) =~= Seq::<AdapterEmitView>::empty());
            }
            while j < emits.len()
                invariant
                    i < stacks@.len(),
                    j <= emits@.len(),
                    *emits == stacks@[i as int].1,
                    *name == stacks@[i as int].0,
                    sv == stacks_view(stacks@),
                    handles_recorded(sv),
                    exports@ == ex0 + go_exports_of(name@, sv[i as int].1.take(j as int)),
                decreases emits@.len() - j,
            {
                let ae = &emits[j];
                assert(sv[i as int].1[j as int] == ae@);
                assert(ae@.ctx.contains_key("handle"@));
                let handle = ae.get_ctx("handle").unwrap();
                let mut l1 = String::from_str("//export ");
                l1.append(handle.as_str());
                push_line(&mut exports, 0, l1.as_str());
                let mut l2 = String::from_str("func ");
                l2.append(handle.as_str());
                l2.append("() {");
                push_line(&mut exports, 0, l2.as_str());
                let mut l3 = String::from_str("__");
                l3.append(name.as_str());
                l3.append(".");
                l3.append(ae.get_func_name().as_str());
                l3.append("(__");
                l3.append(name.as_str());
                l3.append(".OmniContext{});");
                push_line(&mut exports, 1, l3.as_str());
                push_line(&mut exports, 0, "}\n\n");
                proof {
                    let es = sv[i as int].1;
                    assert(es.take(j + 1).drop_last() =~= es.take(j as int));
                    assert(es.take(j + 1).last() == ae@);
                }
                assert(exports@ =~= ex0 + go_exports_of(name@, sv[i as int].1.take(j + 1)));
                j = j + 1;
            }
            proof {
                assert(sv[i as int].1.take(emits@.len() as int) =~= sv[i as int].1);
                assert(sv.take(i + 1).drop_last() =~= sv.take(i as int));
                assert(sv.take(i + 1).last() == sv[i as int]);
            }
            assert(file@ =~= head + go_imports(self.module_name@, sv.take(i + 1)));
            assert(exports@ =~= go_exports(sv.take(i + 1)));
            i = i + 1;
        }
        assert(sv.take(stacks@.len() as int) =~= sv);
        file.append(")\n\n");
        file.append(exports.as_str());
        file.append("\nfunc main() {\n    fmt.Println(\"dont run me im sensitive\")\n}\n");
        assert(file@ =~= go_main_text(self.module_name@, sv));
        Ok(file)
    }
}

} // verus!
