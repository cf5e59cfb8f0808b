//! What language adapters share: the record of one emitted handler, the per-stack
//! context, the output context, and the adapter traits.
use vstd::prelude::*;
use crate::collections::{file_map, file_map_get, file_map_insert, file_map_new, str_map, str_map_get, str_map_insert, str_map_new, FileMap, StrMap};
use crate::ctx::OmnicomCtx;
use crate::gentree::{groutes_view, GenNode, GenRoute, GenTree};
use crate::languages::rust::{gen_len, gen_r, generable, is_length, levels_generable};
use crate::router::Node;
use crate::hashes::push_bytes;
use crate::text::{hex_bytes, hex_encode};

verus! {

/// What an adapter emitted for one handler of a stack.
pub struct AdapterEmit {
    version: String,
    hash: Vec<u8>,
    src_path: String,
    func_name: String,
    ctx: StrMap,
}

/// An emission as plain values.
pub struct AdapterEmitView {
    pub version: Seq<char>,
    pub hash: Seq<u8>,
    pub src_path: Seq<char>,
    pub func_name: Seq<char>,
    pub ctx: Map<Seq<char>, Seq<char>>,
}

impl View for AdapterEmit {
    type V = AdapterEmitView;

    closed spec fn view(&self) -> AdapterEmitView {
        AdapterEmitView {
            version: self.version@,
            hash: self.hash@,
            src_path: self.src_path@,
            func_name: self.func_name@,
            ctx: str_map(self.ctx),
        }
    }
}

impl AdapterEmit {
    pub fn new(src_path: &str, func_name: String, version: String, hash: Vec<u8>) -> (r: AdapterEmit)
        ensures
            r@.version == version@,
            r@.hash == hash@,
            r@.src_path == src_path@,
            r@.func_name == func_name@,
            r@.ctx == Map::<Seq<char>, Seq<char>>::empty(),
    {
        AdapterEmit { version, hash, src_path: String::from_str(src_path), func_name, ctx: str_map_new() }
    }

    pub fn get_version(&self) -> (r: &str)
        ensures
            r@ == self@.version,
    {
        self.version.as_str()
    }

    pub fn get_hash(&self) -> (r: &Vec<u8>)
        ensures
            r@ == self@.hash,
    {
        &self.hash
    }

    /// The hash as lowercase hex.
    pub fn get_hash_str(&self) -> (r: String)
        ensures
            r@ == hex_bytes(self@.hash),
    {
        hex_encode(self.hash.as_slice())
    }

    pub fn get_func_name(&self) -> (r: &String)
        ensures
            r@ == self@.func_name,
    {
        &self.func_name
    }

    /// A value recorded under a key, if any.
    pub fn get_ctx(&self, key: &str) -> (r: Option<&String>)
        ensures
            self@.ctx.contains_key(key@) ==> r is Some && r->0@ == self@.ctx[key@],
            !self@.ctx.contains_key(key@) ==> r is None,
    {
        str_map_get(&self.ctx, key)
    }

    /// Records a value under a key, replacing an earlier one.
    pub fn set_ctx(&mut self, key: &str, val: &str)
        ensures
            final(self)@.ctx == old(self)@.ctx.insert(key@, val@),
            final(self)@.version == old(self)@.version,
            final(self)@.hash == old(self)@.hash,
            final(self)@.src_path == old(self)@.src_path,
            final(self)@.func_name == old(self)@.func_name,
    {
        str_map_insert(&mut self.ctx, String::from_str(key), String::from_str(val));
    }
}

/// The context of one stack's generation: foreign functions to declare, and source
/// files to carry along, by name.
pub struct AdapterStackCtx {
    pub ffi: Vec<String>,
    pub files: FileMap,
}

impl AdapterStackCtx {
    /// The files, by name.
    pub open spec fn files_view(&self) -> Map<Seq<char>, Seq<u8>> {
        file_map(self.files)
    }

    /// A context with no declarations and no files.
    pub fn new() -> (r: AdapterStackCtx)
        ensures
            r.ffi@.len() == 0,
            r.files_view() == Map::<Seq<char>, Seq<u8>>::empty(),
    {
        AdapterStackCtx { ffi: Vec::new(), files: file_map_new() }
    }

    /// Appends bytes to the file of that name, which starts empty.
    pub fn file(&mut self, f: &str, bytes: &[u8])
        ensures
            final(self).ffi == old(self).ffi,
            final(self).files_view() == old(self).files_view().insert(
                f@,
                if old(self).files_view().contains_key(f@) {
                    old(self).files_view()[f@]
                } else {
                    Seq::<u8>::empty()
                } + bytes@,
            ),
    {
        let mut content: Vec<u8> = Vec::new();
        match file_map_get(&self.files, f) {
            Some(v) => push_bytes(&mut content, v.as_slice()),
            None => {},
        }
        push_bytes(&mut content, bytes);
        file_map_insert(&mut self.files, String::from_str(f), content);
    }

    pub fn get_files(&self) -> (r: &FileMap)
        ensures
            file_map(*r) == self.files_view(),
    {
        &self.files
    }
}

/// What kind of artifact an adapter produces.
pub enum AdapterFlags {
    Importable,
    RequiresBuild,
    Object,
    Interpretted,
}

impl AdapterFlags {
    /// The flag's bit.
    pub fn value(&self) -> (v: u8)
        ensures
            v == match self {
                AdapterFlags::Importable => 0x0u8,
                AdapterFlags::RequiresBuild => 0x1u8,
                AdapterFlags::Object => 0x2u8,
                AdapterFlags::Interpretted => 0x4u8,
            },
    {
        match self {
            AdapterFlags::Importable => 0x0,
            AdapterFlags::RequiresBuild => 0x1,
            AdapterFlags::Object => 0x2,
            AdapterFlags::Interpretted => 0x4,
        }
    }
}

/// A language adapter.
pub trait Adapter {
    fn get_version(&self) -> (r: &'static str)
        default_ensures
            r@ == "0.0.1"@,
    {
        "0.0.1"
    }

    fn get_name(&self) -> &'static str;

    fn get_flags(&self) -> u8;
}

/// A stack's name and its emissions, as plain values.
/// No two stacks have the same name.
pub open spec fn stack_names_distinct(s: Seq<(Seq<char>, Seq<AdapterEmitView>)>) -> bool {
    forall|i: int, j: int| 0 <= i < j < s.len() ==> #[trigger] s[i].0 != #[trigger] s[j].0
}

pub open spec fn stacks_view(stacks: Seq<(String, Vec<AdapterEmit>)>) -> Seq<(Seq<char>, Seq<AdapterEmitView>)> {
    stacks.map_values(|s: (String, Vec<AdapterEmit>)| (s.0@, s.1@.map_values(|e: AdapterEmit| e@)))
}

/// Every emission of every stack has a handle.
pub open spec fn handles_recorded(stacks: Seq<(Seq<char>, Seq<AdapterEmitView>)>) -> bool {
    forall|i: int, j: int|
        0 <= i < stacks.len() && 0 <= j < stacks[i].1.len() ==> (#[trigger] stacks[i].1[j]).ctx.contains_key(
            "handle"@,
        )
}

/// A language adapter for handlers: it emits the code that runs a handler of its
/// language, and the entry file that exports the handlers of the stacks.
pub trait InAdapter: Adapter {
    /// Emits the code that runs a handler, whose source text is `content`, at an
    /// indentation level, and returns the indentation after it with the emission
    /// record.
    fn emit(
        &self,
        ctx: &mut OmnicomCtx,
        writer: &mut String,
        actx: &mut AdapterStackCtx,
        indent: usize,
        n: &Node,
        content: &[u8],
    ) -> (usize, AdapterEmit)
        requires
            indent + 1 <= usize::MAX,
    ;

    /// Whether the adapter handles a source path.
    fn handles(&self, p: &str) -> bool;

    /// The entry file for the stacks, each with its emissions.
    fn configure_build(&mut self, ctx: &mut OmnicomCtx, stacks: &Vec<(String, Vec<AdapterEmit>)>) -> Result<
        String,
        String,
    >
        requires
            handles_recorded(stacks_view(stacks@)),
            stack_names_distinct(stacks_view(stacks@)),
    ;
}

/// Where an output adapter writes: the text so far, the indentation level, and the
/// modules the text depends on.
pub struct OutWriteContext {
    pub writer: String,
    pub w_indent: usize,
    pub deps: Vec<String>,
}

/// The dependencies as plain values.
pub open spec fn deps_view(deps: Vec<String>) -> Seq<Seq<char>> {
    deps@.map_values(|d: String| d@)
}


/// A language adapter for the router: it emits the router of a generation tree.
/// Only length decisions can be generated, so every level below must be under a
/// length condition (see `generable`).
pub trait OutAdapter: Adapter {
    /// The router file for a tree.
    fn generate(&mut self, ctx: &mut OmnicomCtx, tree: &GenTree) -> Result<String, String>
        requires
            generable(tree.node.children@),
            gen_r(1, groutes_view(tree.node.routes), tree.node.children@).peak <= usize::MAX,
    ;

    /// Appends the decision over levels, in the order given, and returns the
    /// indentation after it; the first level decides the kind of decision (only
    /// length decisions are generated) and levels of another kind are skipped.
    fn generate_cond(&mut self, ctx: &mut OmnicomCtx, wctx: &mut OutWriteContext, routes: &Vec<GenNode>) -> Result<
        usize,
        String,
    >
        requires
            routes@.len() > 0 ==> is_length(routes@[0].condition),
            levels_generable(routes@),
            routes@.len() > 0 ==> gen_len(old(wctx).w_indent as nat, routes@.reverse()).peak <= usize::MAX,
    ;

    /// Appends the dispatch of one route on the method and returns the
    /// indentation after it.
    fn generate_route(&mut self, wctx: &mut OutWriteContext, route: &GenRoute) -> Result<usize, String>
        requires
            old(wctx).w_indent + 1 <= usize::MAX,
    ;
}

} // verus!
