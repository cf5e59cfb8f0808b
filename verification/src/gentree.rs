//! The generation tree: the condition tree lowered to per-method handler stacks.
use vstd::prelude::*;
use crate::collections::{
    cnode_vec, cnode_vec_get, cnode_vec_len, groute_vec, groute_vec_new, groute_vec_push_back, route_vec,
    route_vec_get, route_vec_len, stack_vec, stack_vec_new,
};
use crate::condition::{ConditionNode, ConditionTree, ConditionType};
use crate::ctx::OmnicomCtx;
use crate::http::Method;
use crate::router::{path_text, Route, RouteView};
use crate::stack::{chain_fault, stack_file, stack_id, StackGenView, StackGenerator};

verus! {

/// A path with, per method, the id of the stack that serves it.
#[derive(Clone, Debug)]
pub struct GenRoute {
    path: String,
    stack: im::Vector<(Method, String)>,
}

/// A generation route as plain values: the path and, per stack, the method bits and
/// the stack id.
pub struct GenRouteView {
    pub path: Seq<char>,
    pub stack: Seq<(u32, Seq<char>)>,
}

impl View for GenRoute {
    type V = GenRouteView;

    closed spec fn view(&self) -> GenRouteView {
        GenRouteView {
            path: self.path@,
            stack: stack_vec(self.stack).map_values(|e: (Method, String)| (e.0.bits, e.1@)),
        }
    }
}

impl GenRoute {
    /// A route for the path, with no stacks yet.
    pub fn new(path: String) -> (r: GenRoute)
        ensures
            r@.path == path@,
            r@.stack == Seq::<(u32, Seq<char>)>::empty(),
    {
        let r = GenRoute { path, stack: stack_vec_new() };
        assert(r@.stack =~= Seq::<(u32, Seq<char>)>::empty());
        r
    }

    /// The stacks, as they were added.
    pub fn get_stacks(&self) -> (r: &im::Vector<(Method, String)>)
        ensures
            stack_vec(*r).map_values(|e: (Method, String)| (e.0.bits, e.1@)) == self@.stack,
    {
        &self.stack
    }

    /// The stacks, to change in place.
    pub fn get_stack_mut(&mut self) -> (r: &mut im::Vector<(Method, String)>)
        ensures
            stack_vec(*r).map_values(|e: (Method, String)| (e.0.bits, e.1@)) == old(self)@.stack,
            final(self)@ == (GenRouteView {
                stack: stack_vec(*final(r)).map_values(|e: (Method, String)| (e.0.bits, e.1@)),
                ..old(self)@
            }),
    {
        &mut self.stack
    }

    pub fn get_path(&self) -> (r: &str)
        ensures
            r@ == self@.path,
    {
        self.path.as_str()
    }

    /// Adds the stack that serves a method.
    pub fn push_stack(&mut self, method: Method, stack_id: String)
        ensures
            final(self)@.path == old(self)@.path,
            final(self)@.stack == old(self)@.stack.push((method.bits, stack_id@)),
    {
        let ghost before = stack_vec(self.stack);
        crate::collections::stack_vec_push_back(&mut self.stack, (method, stack_id));
        assert(stack_vec(self.stack).map_values(|e: (Method, String)| (e.0.bits, e.1@)) =~= before.map_values(
            |e: (Method, String)| (e.0.bits, e.1@),
        ).push((method.bits, stack_id@)));
    }
}

/// A level of the generation tree: its condition (none at the root), the levels
/// below it, and the routes that end at it.
#[derive(Debug)]
pub struct GenNode {
    pub condition: Option<ConditionType>,
    pub children: Vec<GenNode>,
    pub routes: im::Vector<GenRoute>,
}

/// The routes of a level as plain values.
pub open spec fn groutes_view(v: im::Vector<GenRoute>) -> Seq<GenRouteView> {
    groute_vec(v).map_values(|r: GenRoute| r@)
}

/// The generation tree.
pub struct GenTree {
    pub node: GenNode,
}


/// The routes of a route vector as plain values.
pub open spec fn route_views(v: im::Vector<Route>) -> Seq<RouteView> {
    views_of(route_vec(v))
}

/// Routes as plain values.
pub open spec fn views_of(rs: Seq<Route>) -> Seq<RouteView> {
    rs.map_values(|r: Route| r@)
}

/// The index of the first generation route with that path.
pub open spec fn path_index(gs: Seq<GenRouteView>, p: Seq<char>) -> Option<int>
    decreases gs.len(),
{
    if gs.len() == 0 {
        None
    } else {
        match path_index(gs.drop_last(), p) {
            Some(i) => Some(i),
            None => if gs.last().path == p {
                Some(gs.len() - 1)
            } else {
                None
            },
        }
    }
}

/// The generation routes of routes: one per path, in the order the paths first
/// occur, each with the stack of every route of that path, in order, under the
/// route's method.
pub open spec fn gen_routes(srcs: Seq<(Seq<char>, Seq<u8>)>, rs: Seq<RouteView>) -> Seq<GenRouteView>
    decreases rs.len(),
{
    if rs.len() == 0 {
        seq![]
    } else {
        let prev = gen_routes(srcs, rs.drop_last());
        let r = rs.last();
        let p = path_text(r.path);
        let e = (r.method, stack_id(srcs, r.chain));
        match path_index(prev, p) {
            Some(k) => prev.update(k, GenRouteView { path: p, stack: prev[k].stack.push(e) }),
            None => prev.push(GenRouteView { path: p, stack: seq![e] }),
        }
    }
}

/// The fault of the first route whose stack cannot be generated.
pub open spec fn routes_fault(adapters: nat, srcs: Seq<(Seq<char>, Seq<u8>)>, rs: Seq<RouteView>) -> Option<
    Seq<char>,
>
    decreases rs.len(),
{
    if rs.len() == 0 {
        None
    } else {
        match routes_fault(adapters, srcs, rs.drop_last()) {
            Some(e) => Some(e),
            None => chain_fault(adapters, srcs, rs.last().chain),
        }
    }
}

/// The first fault in a subtree, in the order of generation: the levels below,
/// then the level's own routes.
pub open spec fn cnode_fault(adapters: nat, srcs: Seq<(Seq<char>, Seq<u8>)>, n: ConditionNode) -> Option<
    Seq<char>,
>
    decreases n, 1nat,
{
    match cnodes_fault(adapters, srcs, n.children@) {
        Some(e) => Some(e),
        None => routes_fault(adapters, srcs, route_views(n.stored_routes)),
    }
}

/// The first fault in a sequence of subtrees.
pub open spec fn cnodes_fault(adapters: nat, srcs: Seq<(Seq<char>, Seq<u8>)>, ns: Seq<ConditionNode>) -> Option<
    Seq<char>,
>
    decreases ns, 0nat,
{
    if ns.len() == 0 {
        None
    } else {
        match cnodes_fault(adapters, srcs, ns.drop_last()) {
            Some(e) => Some(e),
            None => cnode_fault(adapters, srcs, ns.last()),
        }
    }
}

/// The first fault in a tree: the root's routes, then the subtrees.
pub open spec fn tree_fault(adapters: nat, srcs: Seq<(Seq<char>, Seq<u8>)>, rs: Seq<RouteView>, ns: Seq<ConditionNode>) -> Option<
    Seq<char>,
> {
    match routes_fault(adapters, srcs, rs) {
        Some(e) => Some(e),
        None => cnodes_fault(adapters, srcs, ns),
    }
}

/// A generation level mirrors a condition level: the same condition, the
/// generation routes of its routes, and levels below that mirror its own.
pub open spec fn mirrors(srcs: Seq<(Seq<char>, Seq<u8>)>, g: GenNode, n: ConditionNode) -> bool
    decreases n,
{
    &&& g.condition == Some(n.condition)
    &&& groutes_view(g.routes) == gen_routes(srcs, route_views(n.stored_routes))
    &&& g.children@.len() == n.children@.len()
    &&& forall|i: int| 0 <= i < n.children@.len() ==> mirrors(srcs, #[trigger] g.children@[i], n.children@[i])
}

/// A fault in a prefix is the first fault of the routes.
proof fn lemma_routes_fault_prefix(adapters: nat, srcs: Seq<(Seq<char>, Seq<u8>)>, rs: Seq<RouteView>, k: int)
    requires
        0 <= k <= rs.len(),
        routes_fault(adapters, srcs, rs.take(k)) is Some,
    ensures
        routes_fault(adapters, srcs, rs) == routes_fault(adapters, srcs, rs.take(k)),
    decreases rs.len() - k,
{
    if k < rs.len() {
        assert(rs.take(k + 1).drop_last() =~= rs.take(k));
        lemma_routes_fault_prefix(adapters, srcs, rs, k + 1);
    } else {
        assert(rs.take(k) =~= rs);
    }
}

/// A fault in a prefix is the first fault of the subtrees.
proof fn lemma_cnodes_fault_prefix(adapters: nat, srcs: Seq<(Seq<char>, Seq<u8>)>, ns: Seq<ConditionNode>, k: int)
    requires
        0 <= k <= ns.len(),
        cnodes_fault(adapters, srcs, ns.take(k)) is Some,
    ensures
        cnodes_fault(adapters, srcs, ns) == cnodes_fault(adapters, srcs, ns.take(k)),
    decreases ns.len() - k,
{
    if k < ns.len() {
        assert(ns.take(k + 1).drop_last() =~= ns.take(k));
        lemma_cnodes_fault_prefix(adapters, srcs, ns, k + 1);
    } else {
        assert(ns.take(k) =~= ns);
    }
}

/// The index of the generation route with that path, if any.
fn find_groute(list: &Vec<GenRoute>, path: &str) -> (r: Option<usize>)
    ensures
        match r {
            Some(i) => i < list@.len() && path_index(list@.map_values(|g: GenRoute| g@), path@) == Some(i as int),
            None => path_index(list@.map_values(|g: GenRoute| g@), path@) is None,
        },
{
    let ghost gs = list@.map_values(|g: GenRoute| g@);
    let mut i: usize = 0;
    proof {
        assert(gs.take(0) =~= Seq::<GenRouteView>::empty());
    }
    while i < list.len()
        invariant
            i <= list@.len(),
            gs == list@.map_values(|g: GenRoute| g@),
            path_index(gs.take(i as int), path@) is None,
        decreases list@.len() - i,
    {
        assert(gs.take(i + 1).drop_last() =~= gs.take(i as int));
        if crate::text::str_eq(list[i].get_path(), path) {
            proof {
                lemma_path_index_prefix(gs, path@, i + 1);
            }
            return Some(i);
        }
        i = i + 1;
    }
    assert(gs.take(list@.len() as int) =~= gs);
    None
}

/// A path found is at a valid index and has that path.
proof fn lemma_path_index_found(gs: Seq<GenRouteView>, p: Seq<char>)
    ensures
        path_index(gs, p) matches Some(i) ==> 0 <= i < gs.len() && gs[i].path == p,
    decreases gs.len(),
{
    if gs.len() > 0 {
        lemma_path_index_found(gs.drop_last(), p);
    }
}

/// A path found in a prefix is found at the same index in the whole.
proof fn lemma_path_index_prefix(gs: Seq<GenRouteView>, p: Seq<char>, k: int)
    requires
        0 <= k <= gs.len(),
        path_index(gs.take(k), p) is Some,
    ensures
        path_index(gs, p) == path_index(gs.take(k), p),
    decreases gs.len() - k,
{
    if k < gs.len() {
        assert(gs.take(k + 1).drop_last() =~= gs.take(k));
        lemma_path_index_prefix(gs, p, k + 1);
    } else {
        assert(gs.take(k) =~= gs);
    }
}

/// What a stack generator keeps while it generates: its adapters, sources and
/// target.
pub open spec fn same_setup(a: StackGenView, b: StackGenView) -> bool {
    &&& a.adapters == b.adapters
    &&& a.sources == b.sources
    &&& a.target == b.target
    &&& a.time == b.time
}

/// The stack files of routes, one per route in order, each stamped with the
/// generator's build time and target.
pub open spec fn stack_files(rs: Seq<RouteView>, setup: StackGenView) -> Seq<(Seq<char>, Seq<char>)> {
    Seq::new(
        rs.len(),
        |i: int| (stack_id(setup.sources, rs[i].chain), stack_file(setup.sources, stack_id(setup.sources, rs[i].chain), setup.time, setup.target, rs[i])),
    )
}

/// `after` is `before` followed by one stack file per route, in order.
pub open spec fn files_added(
    before: Seq<(Seq<char>, Seq<char>)>,
    after: Seq<(Seq<char>, Seq<char>)>,
    rs: Seq<RouteView>,
    setup: StackGenView,
) -> bool {
    after == before + stack_files(rs, setup)
}

/// `before` is kept at the start of `after`.
pub open spec fn files_kept(before: Seq<(Seq<char>, Seq<char>)>, after: Seq<(Seq<char>, Seq<char>)>) -> bool {
    before.len() <= after.len() && after.take(before.len() as int) == before
}

/// The routes of a subtree in the order their stacks are generated: those of the
/// levels below first, then the level's own.
pub open spec fn cnode_order(n: ConditionNode) -> Seq<RouteView>
    decreases n, 1nat,
{
    cnodes_order(n.children@) + route_views(n.stored_routes)
}

/// The routes of subtrees in generation order.
pub open spec fn cnodes_order(ns: Seq<ConditionNode>) -> Seq<RouteView>
    decreases ns, 0nat,
{
    if ns.len() == 0 {
        seq![]
    } else {
        cnodes_order(ns.drop_last()) + cnode_order(ns.last())
    }
}

proof fn lemma_files_added_none(f: Seq<(Seq<char>, Seq<char>)>, setup: StackGenView)
    ensures
        files_added(f, f, seq![], setup),
{
    assert(f + stack_files(seq![], setup) =~= f);
}

proof fn lemma_files_added_trans(
    a: Seq<(Seq<char>, Seq<char>)>,
    b: Seq<(Seq<char>, Seq<char>)>,
    c: Seq<(Seq<char>, Seq<char>)>,
    r1: Seq<RouteView>,
    r2: Seq<RouteView>,
    setup: StackGenView,
)
    requires
        files_added(a, b, r1, setup),
        files_added(b, c, r2, setup),
    ensures
        files_added(a, c, r1 + r2, setup),
{
    assert(stack_files(r1 + r2, setup) =~= stack_files(r1, setup) + stack_files(r2, setup));
    assert(c =~= a + stack_files(r1 + r2, setup));
}

proof fn lemma_files_kept_trans(a: Seq<(Seq<char>, Seq<char>)>, b: Seq<(Seq<char>, Seq<char>)>, c: Seq<(Seq<char>, Seq<char>)>)
    requires
        files_kept(a, b),
        files_kept(b, c),
    ensures
        files_kept(a, c),
{
    assert(c.take(a.len() as int) =~= b.take(a.len() as int));
}

proof fn lemma_files_added_kept(
    a: Seq<(Seq<char>, Seq<char>)>,
    b: Seq<(Seq<char>, Seq<char>)>,
    rs: Seq<RouteView>,
    setup: StackGenView,
)
    requires
        files_added(a, b, rs, setup),
    ensures
        files_kept(a, b),
{
    assert(b.take(a.len() as int) =~= a);
}

proof fn lemma_files_step(
    old_files: Seq<(Seq<char>, Seq<char>)>,
    before: Seq<(Seq<char>, Seq<char>)>,
    after: Seq<(Seq<char>, Seq<char>)>,
    rs: Seq<RouteView>,
    i: int,
    setup: StackGenView,
)
    requires
        0 <= i < rs.len(),
        files_added(old_files, before, rs.take(i), setup),
        after == before.push(
            (stack_id(setup.sources, rs[i].chain), stack_file(setup.sources, stack_id(setup.sources, rs[i].chain), setup.time, setup.target, rs[i])),
        ),
    ensures
        files_added(old_files, after, rs.take(i + 1), setup),
{
    assert(stack_files(rs.take(i + 1), setup) =~= stack_files(rs.take(i), setup).push(
        (stack_id(setup.sources, rs[i].chain), stack_file(setup.sources, stack_id(setup.sources, rs[i].chain), setup.time, setup.target, rs[i])),
    ));
    assert(after =~= old_files + stack_files(rs.take(i + 1), setup));
}

impl GenTree {
    /// The generation routes of routes, generating the stack of each route in
    /// order. Fails at the first route whose stack cannot be generated.
    fn generate_routes(ctx: &mut OmnicomCtx, sg: &mut StackGenerator, routes: &im::Vector<Route>) -> (res:
        Result<im::Vector<GenRoute>, String>)
        ensures
            same_setup(final(sg)@, old(sg)@),
            res is Ok <==> routes_fault(old(sg)@.adapters, old(sg)@.sources, route_views(*routes)) is None,
            res matches Ok(v) ==> groutes_view(v) == gen_routes(old(sg)@.sources, route_views(*routes)),
            res matches Err(e) ==> routes_fault(old(sg)@.adapters, old(sg)@.sources, route_views(*routes))
                == Some(e@),
            res is Ok ==> files_added(old(sg)@.files, final(sg)@.files, route_views(*routes), old(sg)@),
            files_kept(old(sg)@.files, final(sg)@.files),
    {
        let ghost rs = route_views(*routes);
        proof {
            lemma_files_added_none(sg@.files, sg@);
        }
        let ghost a = sg@.adapters;
        let ghost srcs = sg@.sources;
        let n = route_vec_len(routes);
        let mut list: Vec<GenRoute> = Vec::new();
        let mut i: usize = 0;
        proof {
            assert(rs.take(0) =~= Seq::<RouteView>::empty());
            assert(list@.map_values(|g: GenRoute| g@) =~= Seq::<GenRouteView>::empty());
        }
        while i < n
            invariant
                i <= n,
                n == rs.len(),
                rs == route_views(*routes),
                a == old(sg)@.adapters,
                srcs == old(sg)@.sources,
                same_setup(sg@, old(sg)@),
                routes_fault(a, srcs, rs.take(i as int)) is None,
                list@.map_values(|g: GenRoute| g@) == gen_routes(old(sg)@.sources, rs.take(i as int)),
                files_added(old(sg)@.files, sg@.files, rs.take(i as int), old(sg)@),
            decreases n - i,
        {
            let r = route_vec_get(routes, i);
            let ghost prev = list@.map_values(|g: GenRoute| g@);
            let ghost files0 = sg@.files;
            proof {
                lemma_files_added_kept(old(sg)@.files, files0, rs.take(i as int), old(sg)@);
            }
            proof {
                assert(rs[i as int] == r@);
                assert(rs.take(i + 1).drop_last() =~= rs.take(i as int));
                assert(rs.take(i + 1).last() == r@);
            }
            let path = r.get_path_str();
            match find_groute(&list, path.as_str()) {
                Some(k) => {
                    proof {
                        lemma_path_index_found(prev, path@);
                    }
                    let ghost l0 = list@;
                    let mut gr = list.remove(k);
                    assert(prev[k as int] == l0[k as int]@);
                    assert(prev[k as int].path == path@);
                    match sg.generate_stack(ctx, r, &mut gr) {
                        Ok(()) => {},
                        Err(e) => {
                            proof {
                                lemma_routes_fault_prefix(a, srcs, rs, i + 1);
                            }
                            return Err(e);
                        },
                    }
                    proof {
                        lemma_files_step(old(sg)@.files, files0, sg@.files, rs, i as int, old(sg)@);
                    }
                    let ghost l1 = list@;
                    assert(gr@.path == path@);
                    assert(gr@.stack == prev[k as int].stack.push((r@.method, stack_id(old(sg)@.sources, r@.chain))));
                    list.insert(k, gr);
                    assert(list@ == l1.insert(k as int, gr));
                    assert(list@.map_values(|g: GenRoute| g@) =~= prev.update(
                        k as int,
                        GenRouteView { path: path@, stack: prev[k as int].stack.push((r@.method, stack_id(old(sg)@.sources, r@.chain))) },
                    ));
                },
                None => {
                    let mut gr = GenRoute::new(path);
                    match sg.generate_stack(ctx, r, &mut gr) {
                        Ok(()) => {},
                        Err(e) => {
                            proof {
                                lemma_routes_fault_prefix(a, srcs, rs, i + 1);
                            }
                            return Err(e);
                        },
                    }
                    proof {
                        lemma_files_step(old(sg)@.files, files0, sg@.files, rs, i as int, old(sg)@);
                    }
                    list.push(gr);
                    assert(list@.map_values(|g: GenRoute| g@) =~= prev.push(
                        GenRouteView { path: path_text(r@.path), stack: seq![(r@.method, stack_id(old(sg)@.sources, r@.chain))] },
                    ));
                },
            }
            i = i + 1;
        }
        assert(rs.take(n as int) =~= rs);
        proof {
            lemma_files_added_kept(old(sg)@.files, sg@.files, rs, old(sg)@);
        }
        let ghost all = list@;
        let mut out = groute_vec_new();
        while list.len() > 0
            invariant
                groute_vec(out) + list@ == all,
            decreases list@.len(),
        {
            let g = list.remove(0);
            groute_vec_push_back(&mut out, g);
            assert(groute_vec(out) + list@ =~= all);
        }
        assert(groute_vec(out) =~= all);
        Ok(out)
    }
    /// The generation level for a condition level: the levels below first, then
    /// the level's own routes. Fails at the first stack that cannot be generated.
    fn from_cond_node_r(ctx: &mut OmnicomCtx, sg: &mut StackGenerator, node: &ConditionNode) -> (res: Result<
        GenNode,
        String,
    >)
        ensures
            same_setup(final(sg)@, old(sg)@),
            res is Ok <==> cnode_fault(old(sg)@.adapters, old(sg)@.sources, *node) is None,
            res matches Ok(g) ==> mirrors(old(sg)@.sources, g, *node),
            res matches Err(e) ==> cnode_fault(old(sg)@.adapters, old(sg)@.sources, *node) == Some(e@),
            res is Ok ==> files_added(old(sg)@.files, final(sg)@.files, cnode_order(*node), old(sg)@),
            files_kept(old(sg)@.files, final(sg)@.files),
        decreases *node,
    {
        let ghost a = sg@.adapters;
        let ghost srcs = sg@.sources;
        let ghost ns = node.children@;
        let ghost setup = sg@;
        let mut children: Vec<GenNode> = Vec::new();
        let mut i: usize = 0;
        proof {
            assert(ns.take(0) =~= Seq::<ConditionNode>::empty());
            lemma_files_added_none(sg@.files, setup);
        }
        while i < node.children.len()
            invariant
                i <= ns.len(),
                ns == node.children@,
                a == old(sg)@.adapters,
                srcs == old(sg)@.sources,
                same_setup(sg@, old(sg)@),
                cnodes_fault(a, srcs, ns.take(i as int)) is None,
                children@.len() == i,
                forall|j: int| 0 <= j < i ==> mirrors(old(sg)@.sources, #[trigger] children@[j], ns[j]),
                setup == old(sg)@,
                files_added(old(sg)@.files, sg@.files, cnodes_order(ns.take(i as int)), setup),
            decreases ns.len() - i,
        {
            assert(ns.take(i + 1).drop_last() =~= ns.take(i as int));
            assert(ns.take(i + 1).last() == ns[i as int]);
            let ghost files0 = sg@.files;
            proof {
                lemma_files_added_kept(old(sg)@.files, files0, cnodes_order(ns.take(i as int)), setup);
            }
            match GenTree::from_cond_node_r(ctx, sg, &node.children[i]) {
                Ok(g) => {
                    children.push(g);
                },
                Err(e) => {
                    proof {
                        lemma_cnodes_fault_prefix(a, srcs, ns, i + 1);
                        lemma_files_kept_trans(old(sg)@.files, files0, sg@.files);
                    }
                    return Err(e);
                },
            }
            proof {
                lemma_files_added_trans(
                    old(sg)@.files,
                    files0,
                    sg@.files,
                    cnodes_order(ns.take(i as int)),
                    cnode_order(ns[i as int]),
                    setup,
                );
            }
            i = i + 1;
        }
        assert(ns.take(ns.len() as int) =~= ns);
        let ghost files1 = sg@.files;
        proof {
            lemma_files_added_kept(old(sg)@.files, files1, cnodes_order(ns), setup);
        }
        let routes = match GenTree::generate_routes(ctx, sg, &node.stored_routes) {
            Ok(v) => v,
            Err(e) => {
                proof {
                    lemma_files_kept_trans(old(sg)@.files, files1, sg@.files);
                }
                return Err(e);
            },
        };
        proof {
            lemma_files_added_trans(
                old(sg)@.files,
                files1,
                sg@.files,
                cnodes_order(ns),
                route_views(node.stored_routes),
                setup,
            );
            lemma_files_added_kept(old(sg)@.files, sg@.files, cnode_order(*node), setup);
        }
        Ok(GenNode { condition: Some(node.condition.duplicate()), children, routes })
    }

    /// The generation tree of a condition tree: the root's routes, then each
    /// subtree, each route given the stack the generator makes for it. Fails at the
    /// first stack that cannot be generated; the condition tree is left as it was.
    pub fn from_cond_tree(ctx: &mut OmnicomCtx, sg: &mut StackGenerator, tree: &mut ConditionTree) -> (res: Result<
        GenTree,
        String,
    >)
        ensures
            *final(tree) == *old(tree),
            same_setup(final(sg)@, old(sg)@),
            res is Ok <==> tree_fault(
                old(sg)@.adapters,
                old(sg)@.sources,
                views_of(old(tree)@.stored),
                old(tree)@.children,
            ) is None,
            res matches Ok(t) ==> {
                &&& t.node.condition is None
                &&& groutes_view(t.node.routes) == gen_routes(old(sg)@.sources, views_of(old(tree)@.stored))
                &&& t.node.children@.len() == old(tree)@.children.len()
                &&& forall|i: int|
                    0 <= i < t.node.children@.len() ==> mirrors(old(sg)@.sources, 
                        #[trigger] t.node.children@[i],
                        old(tree)@.children[i],
                    )
            },
            res matches Err(e) ==> tree_fault(
                old(sg)@.adapters,
                old(sg)@.sources,
                views_of(old(tree)@.stored),
                old(tree)@.children,
            ) == Some(e@),
            res is Ok ==> files_added(
                old(sg)@.files,
                final(sg)@.files,
                views_of(old(tree)@.stored) + cnodes_order(old(tree)@.children),
                old(sg)@,
            ),
            files_kept(old(sg)@.files, final(sg)@.files),
    {
        let ghost a = sg@.adapters;
        let ghost srcs = sg@.sources;
        let ghost setup = sg@;
        let routes = match GenTree::generate_routes(ctx, sg, tree.get_routes()) {
            Ok(v) => v,
            Err(e) => {
                return Err(e);
            },
        };
        let ghost files1 = sg@.files;
        proof {
            lemma_files_added_kept(old(sg)@.files, files1, views_of(tree@.stored), setup);
            lemma_files_added_none(files1, setup);
        }
        let ghost ns = tree@.children;
        let ghost rs0 = views_of(tree@.stored);
        assert(routes_fault(a, srcs, rs0) is None);
        let kids = tree.get_children();
        let n = cnode_vec_len(kids);
        let mut children: Vec<GenNode> = Vec::new();
        let mut i: usize = 0;
        proof {
            assert(ns.take(0) =~= Seq::<ConditionNode>::empty());
        }
        while i < n
            invariant
                i <= n,
                n == ns.len(),
                ns == cnode_vec(*kids),
                ns == old(tree)@.children,
                rs0 == views_of(old(tree)@.stored),
                routes_fault(a, srcs, rs0) is None,
                a == old(sg)@.adapters,
                srcs == old(sg)@.sources,
                same_setup(sg@, old(sg)@),
                cnodes_fault(a, srcs, ns.take(i as int)) is None,
                children@.len() == i,
                forall|j: int| 0 <= j < i ==> mirrors(old(sg)@.sources, #[trigger] children@[j], ns[j]),
                setup == old(sg)@,
                files_added(old(sg)@.files, files1, rs0, setup),
                files_added(files1, sg@.files, cnodes_order(ns.take(i as int)), setup),
            decreases n - i,
        {
            assert(ns.take(i + 1).drop_last() =~= ns.take(i as int));
            assert(ns.take(i + 1).last() == ns[i as int]);
            let c = cnode_vec_get(kids, i);
            let ghost files0 = sg@.files;
            proof {
                lemma_files_added_trans(old(sg)@.files, files1, files0, rs0, cnodes_order(ns.take(i as int)), setup);
                lemma_files_added_kept(old(sg)@.files, files0, rs0 + cnodes_order(ns.take(i as int)), setup);
            }
            match GenTree::from_cond_node_r(ctx, sg, c) {
                Ok(g) => {
                    children.push(g);
                },
                Err(e) => {
                    proof {
                        lemma_cnodes_fault_prefix(a, srcs, ns, i + 1);
                        lemma_files_kept_trans(old(sg)@.files, files0, sg@.files);
                    }
                    return Err(e);
                },
            }
            proof {
                lemma_files_added_trans(
                    files1,
                    files0,
                    sg@.files,
                    cnodes_order(ns.take(i as int)),
                    cnode_order(ns[i as int]),
                    setup,
                );
            }
            i = i + 1;
        }
        assert(ns.take(n as int) =~= ns);
        proof {
            lemma_files_added_trans(old(sg)@.files, files1, sg@.files, rs0, cnodes_order(ns), setup);
            lemma_files_added_kept(old(sg)@.files, sg@.files, rs0 + cnodes_order(ns), setup);
        }
        Ok(GenTree { node: GenNode { condition: None, children, routes } })
    }
}


/// A path not found is held by no generation route.
proof fn lemma_path_index_none(gs: Seq<GenRouteView>, p: Seq<char>)
    requires
        path_index(gs, p) is None,
    ensures
        forall|i: int| 0 <= i < gs.len() ==> (#[trigger] gs[i]).path != p,
    decreases gs.len(),
{
    if gs.len() > 0 {
        lemma_path_index_none(gs.drop_last(), p);
        assert forall|i: int| 0 <= i < gs.len() implies (#[trigger] gs[i]).path != p by {
            if i < gs.len() - 1 {
                assert(gs[i] == gs.drop_last()[i]);
            }
        }
    }
}

/// Each path has one generation route: no two generation routes share a path.
pub proof fn law_gen_routes_distinct_paths(srcs: Seq<(Seq<char>, Seq<u8>)>, rs: Seq<RouteView>)
    ensures
        forall|i: int, j: int|
            0 <= i < j < gen_routes(srcs, rs).len() ==> (#[trigger] gen_routes(srcs, rs)[i]).path
                != (#[trigger] gen_routes(srcs, rs)[j]).path,
    decreases rs.len(),
{
    if rs.len() > 0 {
        let prev = gen_routes(srcs, rs.drop_last());
        let p = path_text(rs.last().path);
        law_gen_routes_distinct_paths(srcs, rs.drop_last());
        lemma_path_index_found(prev, p);
        if path_index(prev, p) is None {
            lemma_path_index_none(prev, p);
        }
        let g = gen_routes(srcs, rs);
        assert forall|i: int, j: int| 0 <= i < j < g.len() implies (#[trigger] g[i]).path != (#[trigger] g[j]).path by {
            if j < prev.len() {
                assert(g[i].path == prev[i].path);
                assert(g[j].path == prev[j].path);
            } else {
                assert(g[i].path == prev[i].path);
            }
        }
    }
}

/// Every route is served: the generation route of its path holds the route's
/// stack under the route's method.
pub proof fn law_gen_routes_serve(srcs: Seq<(Seq<char>, Seq<u8>)>, rs: Seq<RouteView>, i: int)
    requires
        0 <= i < rs.len(),
    ensures
        exists|k: int|
            0 <= k < gen_routes(srcs, rs).len() && (#[trigger] gen_routes(srcs, rs)[k]).path == path_text(rs[i].path)
                && gen_routes(srcs, rs)[k].stack.contains((rs[i].method, stack_id(srcs, rs[i].chain))),
    decreases rs.len(),
{
    let prev = gen_routes(srcs, rs.drop_last());
    let p = path_text(rs.last().path);
    let e = (rs.last().method, stack_id(srcs, rs.last().chain));
    let g = gen_routes(srcs, rs);
    lemma_path_index_found(prev, p);
    if i == rs.len() - 1 {
        match path_index(prev, p) {
            Some(k) => {
                assert(g[k].stack == prev[k].stack.push(e));
                assert(g[k].stack[g[k].stack.len() - 1] == e);
                assert(g[k].path == p);
            },
            None => {
                let k = g.len() - 1;
                assert(g[k].stack == seq![e]);
                assert(g[k].stack[0] == e);
                assert(g[k].path == p);
            },
        }
    } else {
        law_gen_routes_serve(srcs, rs.drop_last(), i);
        assert(rs.drop_last()[i] == rs[i]);
        let k0 = choose|k: int|
            0 <= k < prev.len() && (#[trigger] prev[k]).path == path_text(rs[i].path) && prev[k].stack.contains(
                (rs[i].method, stack_id(srcs, rs[i].chain)),
            );
        let x = (rs[i].method, stack_id(srcs, rs[i].chain));
        let m = choose|m: int| 0 <= m < prev[k0].stack.len() && prev[k0].stack[m] == x;
        match path_index(prev, p) {
            Some(k) => {
                if k == k0 {
                    assert(g[k0].stack == prev[k0].stack.push(e));
                    assert(g[k0].stack[m] == x);
                } else {
                    assert(g[k0] == prev[k0]);
                    assert(g[k0].stack[m] == x);
                }
                assert(g[k0].path == path_text(rs[i].path));
            },
            None => {
                assert(g[k0] == prev[k0]);
                assert(g[k0].stack[m] == x);
            },
        }
    }
}

} // verus!
