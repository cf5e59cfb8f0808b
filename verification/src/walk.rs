//! Route discovery over a directory tree: the directory path is the route path,
//! middleware applies to its directory and everything below it.
use vstd::prelude::*;
use crate::collections::{
    node_vec, node_vec_clone, node_vec_len, node_vec_new, node_vec_pop_front, node_vec_push_back,
    route_vec, route_vec_append, route_vec_len, route_vec_new, route_vec_push_back, seg_vec,
    seg_vec_clone, seg_vec_push_back,
};
use crate::ctx::OmnicomCtx;
use crate::router::{segs_view, Node, Route, RouteSeg, SegView};

verus! {

/// A handler file of a directory, with the nodes discovery found in it; `None`
/// when the file could not be parsed (such a file is skipped).
pub struct HandlerFile {
    pub path: String,
    pub nodes: Option<im::Vector<Node>>,
}

/// A directory of the routes tree: its name (`None` when the name is not text),
/// its files and its subdirectories, each in the order the directory lists them.
pub struct DirListing {
    pub name: Option<String>,
    pub files: Vec<HandlerFile>,
    pub dirs: Vec<DirListing>,
}

/// A route as its parts: path, chain and method bits.
#[verifier::ext_equal]
pub struct RouteParts {
    pub path: Seq<SegView>,
    pub chain: Seq<Node>,
    pub method: u32,
}

pub open spec fn route_parts(r: Route) -> RouteParts {
    RouteParts { path: segs_view(r.path), chain: node_vec(r.chain), method: r.method.bits }
}

pub open spec fn routes_parts(v: im::Vector<Route>) -> Seq<RouteParts> {
    route_vec(v).map_values(|r: Route| route_parts(r))
}

/// The nodes a file contributes.
pub open spec fn file_nodes(f: HandlerFile) -> Seq<Node> {
    match f.nodes {
        Some(v) => node_vec(v),
        None => seq![],
    }
}

pub open spec fn is_mw(n: Node) -> bool {
    n is Middleware
}

pub open spec fn is_ep(n: Node) -> bool {
    n is Endpoint
}

/// The middleware of files, in file order and order within each file.
pub open spec fn files_middleware(files: Seq<HandlerFile>) -> Seq<Node>
    decreases files.len(),
{
    if files.len() == 0 {
        seq![]
    } else {
        files_middleware(files.drop_last()) + file_nodes(files.last()).filter(|n: Node| is_mw(n))
    }
}

/// The endpoints of files, in file order and order within each file.
pub open spec fn files_endpoints(files: Seq<HandlerFile>) -> Seq<Node>
    decreases files.len(),
{
    if files.len() == 0 {
        seq![]
    } else {
        files_endpoints(files.drop_last()) + file_nodes(files.last()).filter(|n: Node| is_ep(n))
    }
}

/// The segment a directory name stands for: a name starting with `:` is the
/// dynamic segment named by the rest of it.
pub open spec fn seg_of_name(name: Seq<char>) -> SegView {
    if name.len() > 0 && name[0] == ':' {
        SegView::Dynamic(name.subrange(1, name.len() as int))
    } else {
        SegView::Static(name)
    }
}

/// The method bits of an endpoint node.
pub open spec fn endpoint_bits(n: Node) -> u32 {
    match n {
        Node::Endpoint(_, m) => m.bits,
        Node::Middleware(_) => 0,
    }
}

/// The routes of a directory: first one per endpoint of its files, each with the
/// inherited middleware, the directory's own middleware and the endpoint as its chain;
/// then the routes of its named subdirectories, the last listed first, each seeing
/// the middleware of this directory.
pub open spec fn dir_routes(d: DirListing, parent: Seq<SegView>, inherited: Seq<Node>) -> Seq<
    RouteParts,
>
    decreases d,
{
    let mids = inherited + files_middleware(d.files@);
    let eps = files_endpoints(d.files@);
    let here = Seq::new(
        eps.len(),
        |i: int| RouteParts { path: parent, chain: mids.push(eps[i]), method: endpoint_bits(eps[i]) },
    );
    here + subdirs_routes(d.dirs@, parent, mids)
}

/// The routes of subdirectories, the last listed first.
pub open spec fn subdirs_routes(ds: Seq<DirListing>, parent: Seq<SegView>, mids: Seq<Node>) -> Seq<
    RouteParts,
>
    decreases ds,
{
    if ds.len() == 0 {
        seq![]
    } else {
        let d = ds.last();
        let rest = subdirs_routes(ds.drop_last(), parent, mids);
        match d.name {
            Some(n) => dir_routes(d, parent.push(seg_of_name(n@)), mids) + rest,
            None => rest,
        }
    }
}

proof fn lemma_skip_file(fs: Seq<HandlerFile>, j: int)
    requires
        0 <= j < fs.len(),
        file_nodes(fs[j]).len() == 0,
    ensures
        files_middleware(fs.remove(j)) == files_middleware(fs),
        files_endpoints(fs.remove(j)) == files_endpoints(fs),
    decreases fs.len(),
{
    let e = file_nodes(fs[j]);
    assert(e.filter(|n: Node| is_mw(n)) =~= Seq::<Node>::empty()) by {
        assert(e =~= Seq::<Node>::empty());
    }
    assert(e.filter(|n: Node| is_ep(n)) =~= Seq::<Node>::empty()) by {
        assert(e =~= Seq::<Node>::empty());
    }
    if j == fs.len() - 1 {
        assert(fs.remove(j) =~= fs.drop_last());
        assert(files_middleware(fs) =~= files_middleware(fs.drop_last()));
        assert(files_endpoints(fs) =~= files_endpoints(fs.drop_last()));
    } else {
        lemma_skip_file(fs.drop_last(), j);
        assert(fs.remove(j).drop_last() =~= fs.drop_last().remove(j));
        assert(fs.remove(j).last() == fs.last());
    }
}

/// A file without nodes (one that could not be parsed, or that declares no
/// handler) is skipped: the routes of a directory are the same with it and
/// without it.
pub proof fn law_skipped_file(d1: DirListing, d2: DirListing, j: int, parent: Seq<SegView>, inherited: Seq<Node>)
    requires
        0 <= j < d1.files@.len(),
        file_nodes(d1.files@[j]).len() == 0,
        d2.files@ == d1.files@.remove(j),
        d2.dirs@ == d1.dirs@,
    ensures
        dir_routes(d2, parent, inherited) == dir_routes(d1, parent, inherited),
{
    lemma_skip_file(d1.files@, j);
}

/// The segment for a directory name.
pub fn seg_for_name(name: &String) -> (s: RouteSeg)
    ensures
        s@ == seg_of_name(name@),
{
    let n = name.as_str();
    let len = n.unicode_len();
    if len > 0 && n.get_char(0) == ':' {
        RouteSeg::Dynamic(String::from_str(n.substring_char(1, len)))
    } else {
        RouteSeg::Static(name.clone())
    }
}

/// The routes of a routes directory, walked recursively from its root; the root's
/// own name is no path segment.
pub fn walk_routes(ctx: &OmnicomCtx, root: DirListing) -> (r: im::Vector<Route>)
    requires
        dir_routes(root, seq![], seq![]).len() <= usize::MAX,
    ensures
        routes_parts(r) == dir_routes(root, seq![], seq![]),
{
    let parent = crate::collections::seg_vec_new();
    let midq = node_vec_new();
    proof {
        assert(segs_view(parent) =~= Seq::<SegView>::empty());
    }
    walk_dir(root, &parent, midq)
}

/// The routes of one directory and everything below it.
fn walk_dir(d: DirListing, parent: &im::Vector<RouteSeg>, midq: im::Vector<Node>) -> (r: im::Vector<
    Route,
>)
    requires
        dir_routes(d, segs_view(*parent), node_vec(midq)).len() <= usize::MAX,
    ensures
        routes_parts(r) == dir_routes(d, segs_view(*parent), node_vec(midq)),
    decreases d,
{
    let ghost inherited = node_vec(midq);
    let ghost pv = segs_view(*parent);
    let mut midq = midq;
    let mut rq = node_vec_new();
    let mut k: usize = 0;
    proof {
        assert(d.files@.take(0) =~= Seq::<HandlerFile>::empty());
    }
    while k < d.files.len()
        invariant
            k <= d.files.len(),
            node_vec(midq) == inherited + files_middleware(d.files@.take(k as int)),
            node_vec(rq) == files_endpoints(d.files@.take(k as int)),
            forall|i: int| 0 <= i < node_vec(rq).len() ==> is_ep(#[trigger] node_vec(rq)[i]),
        decreases d.files.len() - k,
    {
        let f = &d.files[k];
        proof {
            assert(d.files@.take(k + 1).drop_last() =~= d.files@.take(k as int));
            assert(d.files@.take(k + 1).last() == *f);
        }
        let ghost m0 = node_vec(midq);
        let ghost r0 = node_vec(rq);
        match &f.nodes {
            Some(v) => {
                let mut nodes = node_vec_clone(v);
                let ghost all = node_vec(*v);
                let count = node_vec_len(&nodes);
                let mut j: usize = 0;
                proof {
                    assert(all.take(0) =~= Seq::<Node>::empty());
                    reveal_with_fuel(Seq::filter, 1);
                }
                while node_vec_len(&nodes) > 0
                    invariant
                        j <= all.len(),
                        all.len() == count,
                        forall|i: int| 0 <= i < node_vec(rq).len() ==> is_ep(#[trigger] node_vec(rq)[i]),
                        node_vec(nodes) == all.skip(j as int),
                        node_vec(midq) == m0 + all.take(j as int).filter(|n: Node| is_mw(n)),
                        node_vec(rq) == r0 + all.take(j as int).filter(|n: Node| is_ep(n)),
                    decreases node_vec(nodes).len(),
                {
                    let n = node_vec_pop_front(&mut nodes).unwrap();
                    proof {
                        assert(n == all[j as int]);
                        assert(all.take(j + 1) =~= all.take(j as int).push(n));
                        assert(node_vec(nodes) =~= all.skip(j + 1));
                        all.take(j as int).lemma_filter_push(n, |n: Node| is_mw(n));
                        all.take(j as int).lemma_filter_push(n, |n: Node| is_ep(n));
                    }
                    let mw = n.is_middleware();
                    if mw {
                        node_vec_push_back(&mut midq, n);
                        assert(node_vec(midq) =~= m0 + all.take(j + 1).filter(|n: Node| is_mw(n)));
                    } else {
                        let ghost before_rq = node_vec(rq);
                        node_vec_push_back(&mut rq, n);
                        assert forall|i: int| 0 <= i < node_vec(rq).len() implies is_ep(#[trigger] node_vec(rq)[i]) by {
                            if i < before_rq.len() {
                                assert(node_vec(rq)[i] == before_rq[i]);
                            }
                        }
                        assert(node_vec(rq) =~= r0 + all.take(j + 1).filter(|n: Node| is_ep(n)));
                    }
                    j = j + 1;
                }
                proof {
                    assert(all.take(j as int) =~= all);
                    assert(file_nodes(*f) == all);
                    assert(node_vec(midq) =~= inherited + files_middleware(d.files@.take(k + 1)));
                    assert(node_vec(rq) =~= files_endpoints(d.files@.take(k + 1)));
                }
            },
            None => {
                proof {
                    reveal_with_fuel(Seq::filter, 1);
                    assert(file_nodes(*f) =~= Seq::<Node>::empty());
                    assert(node_vec(midq) =~= inherited + files_middleware(d.files@.take(k + 1)));
                    assert(node_vec(rq) =~= files_endpoints(d.files@.take(k + 1)));
                }
            },
        }
        k = k + 1;
    }
    proof {
        assert(d.files@.take(k as int) =~= d.files@);
    }
    let ghost mids = node_vec(midq);
    let ghost eps = node_vec(rq);
    let ghost here = Seq::new(
        eps.len(),
        |i: int| RouteParts { path: pv, chain: mids.push(eps[i]), method: endpoint_bits(eps[i]) },
    );
    let mut rv = route_vec_new();
    let mut j: usize = 0;
    proof {
        assert(here.take(0) =~= Seq::<RouteParts>::empty());
        assert(routes_parts(rv) =~= Seq::<RouteParts>::empty());
    }
    while node_vec_len(&rq) > 0
        invariant
            j <= eps.len(),
            node_vec(rq) == eps.skip(j as int),
            node_vec(midq) == mids,
            segs_view(*parent) == pv,
            routes_parts(rv) == here.take(j as int),
            route_vec(rv).len() == j,
            here.len() == eps.len(),
            forall|i: int| 0 <= i < here.len() ==> #[trigger] here[i] == (RouteParts { path: pv, chain: mids.push(eps[i]), method: endpoint_bits(eps[i]) }),
            here.len() <= dir_routes(d, pv, inherited).len() <= usize::MAX,
            forall|i: int| 0 <= i < eps.len() ==> is_ep(#[trigger] eps[i]),
        decreases node_vec(rq).len(),
    {
        let ep = node_vec_pop_front(&mut rq).unwrap();
        proof {
            assert(ep == eps[j as int]);
            assert(node_vec(rq) =~= eps.skip(j + 1));
        }
        let path = seg_vec_clone(parent);
        let chain = node_vec_clone(&midq);
        let route = Route::new(path, ep, chain);
        match route {
            Ok(route) => {
                let ghost before = route_vec(rv);
                route_vec_push_back(&mut rv, route);
                proof {
                    assert(is_ep(ep));
                    assert(route.method.bits == endpoint_bits(ep));
                    assert(segs_view(route.path) == pv);
                    assert(node_vec(route.chain) == mids.push(ep));
                    assert(here[j as int] == RouteParts { path: pv, chain: mids.push(eps[j as int]), method: endpoint_bits(eps[j as int]) });
                    assert(route_parts(route) =~= here[j as int]);
                    assert(route_vec(rv).drop_last() =~= before);
                    assert(here.take(j + 1) =~= here.take(j as int).push(here[j as int]));
                    assert(routes_parts(rv) =~= here.take(j + 1));
                }
            },
            Err(_) => {
                proof {
                    assert(false);
                }
            },
        }
        j = j + 1;
    }
    proof {
        assert(here.take(j as int) =~= here);
    }
    let mut dirs = d.dirs;
    let ghost all_dirs = dirs@;
    let ghost total = dir_routes(d, pv, inherited);
    proof {
        assert(total == here + subdirs_routes(all_dirs, pv, mids));
        assert(routes_parts(rv) + subdirs_routes(dirs@, pv, mids) == total);
    }
    while dirs.len() > 0
        invariant
            routes_parts(rv) + subdirs_routes(dirs@, pv, mids) == total,
            total.len() <= usize::MAX,
            node_vec(midq) == mids,
            segs_view(*parent) == pv,
            forall|i: int| 0 <= i < dirs@.len() ==> decreases_to!(d => #[trigger] dirs@[i]),
        decreases dirs.len(),
    {
        let ghost before_dirs = dirs@;
        let sub = dirs.pop().unwrap();
        proof {
            assert(dirs@ =~= before_dirs.drop_last());
            assert(sub == before_dirs.last());
            assert(decreases_to!(d => before_dirs[before_dirs.len() - 1]));
        }
        match &sub.name {
            Some(name) => {
                let seg = seg_for_name(name);
                let mut child_path = seg_vec_clone(parent);
                seg_vec_push_back(&mut child_path, seg);
                proof {
                    assert(segs_view(child_path) =~= pv.push(seg_of_name(name@)));
                }
                let ghost sub_routes = dir_routes(sub, pv.push(seg_of_name(name@)), mids);
                let ghost rv0 = routes_parts(rv);
                proof {
                    assert(subdirs_routes(before_dirs, pv, mids) == sub_routes + subdirs_routes(dirs@, pv, mids));
                    assert(rv0 + (sub_routes + subdirs_routes(dirs@, pv, mids)) == total);
                    assert(rv0.len() + sub_routes.len() <= total.len());
                }
                let sub_rv = walk_dir(sub, &child_path, node_vec_clone(&midq));
                route_vec_append(&mut rv, sub_rv);
                proof {
                    assert(routes_parts(rv) =~= rv0 + sub_routes);
                    assert(routes_parts(rv) + subdirs_routes(dirs@, pv, mids) =~= rv0 + (sub_routes + subdirs_routes(dirs@, pv, mids)));
                }
            },
            None => {
                proof {
                    assert(subdirs_routes(before_dirs, pv, mids) == subdirs_routes(dirs@, pv, mids));
                }
            },
        }
    }
    proof {
        assert(subdirs_routes(dirs@, pv, mids) =~= Seq::<RouteParts>::empty());
        assert(routes_parts(rv) =~= total);
    }
    rv
}

/// Every route of a directory lies at or below the directory's path.
proof fn lemma_dir_paths(d: DirListing, parent: Seq<SegView>, inherited: Seq<Node>)
    ensures
        forall|k: int|
            0 <= k < dir_routes(d, parent, inherited).len() ==> (#[trigger] dir_routes(d, parent, inherited)[k]).path.len()
                >= parent.len() && dir_routes(d, parent, inherited)[k].path.take(parent.len() as int) == parent,
        forall|k: int|
            files_endpoints(d.files@).len() <= k < dir_routes(d, parent, inherited).len() ==> (#[trigger] dir_routes(
                d,
                parent,
                inherited,
            )[k]).path.len() > parent.len(),
    decreases d,
{
    let mids = inherited + files_middleware(d.files@);
    let eps = files_endpoints(d.files@);
    let here = Seq::new(
        eps.len(),
        |i: int| RouteParts { path: parent, chain: mids.push(eps[i]), method: endpoint_bits(eps[i]) },
    );
    let sub = subdirs_routes(d.dirs@, parent, mids);
    lemma_subdirs_paths(d.dirs@, parent, mids);
    assert(dir_routes(d, parent, inherited) == here + sub);
    assert(parent.take(parent.len() as int) =~= parent);
}

/// Every route of the subdirectories lies strictly below the parent's path.
proof fn lemma_subdirs_paths(ds: Seq<DirListing>, parent: Seq<SegView>, mids: Seq<Node>)
    ensures
        forall|k: int|
            0 <= k < subdirs_routes(ds, parent, mids).len() ==> (#[trigger] subdirs_routes(ds, parent, mids)[k]).path.len()
                > parent.len() && subdirs_routes(ds, parent, mids)[k].path.take(parent.len() as int) == parent,
    decreases ds,
{
    if ds.len() > 0 {
        let d = ds.last();
        let rest = subdirs_routes(ds.drop_last(), parent, mids);
        lemma_subdirs_paths(ds.drop_last(), parent, mids);
        match d.name {
            Some(n) => {
                let p2 = parent.push(seg_of_name(n@));
                lemma_dir_paths(d, p2, mids);
                let own = dir_routes(d, p2, mids);
                assert(subdirs_routes(ds, parent, mids) == own + rest);
                assert forall|k: int| 0 <= k < own.len() implies (#[trigger] own[k]).path.len() > parent.len()
                    && own[k].path.take(parent.len() as int) == parent by {
                    assert(own[k].path.take(p2.len() as int) == p2);
                    assert(own[k].path.take(parent.len() as int) =~= p2.take(parent.len() as int));
                    assert(p2.take(parent.len() as int) =~= parent);
                }
            },
            None => {},
        }
    }
}

/// A directory's routes at its own path are one per endpoint of its files, in
/// file order: the routes at the directory's path are exactly the first ones,
/// as many as the endpoints, and each endpoint is served by a route there whose
/// chain ends with it under its method bits. Every other route lies below.
pub proof fn law_directory_routes_its_endpoints(d: DirListing, parent: Seq<SegView>, inherited: Seq<Node>)
    ensures
        files_endpoints(d.files@).len() <= dir_routes(d, parent, inherited).len(),
        forall|k: int|
            0 <= k < dir_routes(d, parent, inherited).len() ==> ((#[trigger] dir_routes(d, parent, inherited)[k]).path
                == parent <==> k < files_endpoints(d.files@).len()),
        forall|i: int|
            0 <= i < files_endpoints(d.files@).len() ==> {
                let r = #[trigger] dir_routes(d, parent, inherited)[i];
                &&& r.path == parent
                &&& r.chain.len() > 0
                &&& r.chain.last() == files_endpoints(d.files@)[i]
                &&& r.method == endpoint_bits(files_endpoints(d.files@)[i])
            },
{
    lemma_dir_paths(d, parent, inherited);
    let rs = dir_routes(d, parent, inherited);
    let eps = files_endpoints(d.files@);
    assert forall|k: int| 0 <= k < rs.len() implies ((#[trigger] rs[k]).path == parent <==> k < eps.len()) by {
        if k >= eps.len() {
            assert(rs[k].path.len() > parent.len());
        }
    }
}

/// Every route of a directory starts its chain with the middleware it inherits.
proof fn lemma_dir_chains(d: DirListing, parent: Seq<SegView>, inherited: Seq<Node>)
    ensures
        forall|k: int|
            0 <= k < dir_routes(d, parent, inherited).len() ==> (#[trigger] dir_routes(d, parent, inherited)[k]).chain.len()
                > inherited.len() && dir_routes(d, parent, inherited)[k].chain.take(inherited.len() as int)
                == inherited,
    decreases d,
{
    let mids = inherited + files_middleware(d.files@);
    let eps = files_endpoints(d.files@);
    let here = Seq::new(
        eps.len(),
        |i: int| RouteParts { path: parent, chain: mids.push(eps[i]), method: endpoint_bits(eps[i]) },
    );
    let sub = subdirs_routes(d.dirs@, parent, mids);
    lemma_subdirs_chains(d.dirs@, parent, mids);
    assert(dir_routes(d, parent, inherited) == here + sub);
    let rs = dir_routes(d, parent, inherited);
    assert forall|k: int| 0 <= k < rs.len() implies (#[trigger] rs[k]).chain.len() > inherited.len()
        && rs[k].chain.take(inherited.len() as int) == inherited by {
        if k < eps.len() {
            assert(rs[k].chain == mids.push(eps[k]));
            assert(mids.push(eps[k]).take(inherited.len() as int) =~= inherited);
        } else {
            assert(rs[k] == sub[k - eps.len()]);
            assert(rs[k].chain.take(inherited.len() as int) =~= rs[k].chain.take(mids.len() as int).take(
                inherited.len() as int,
            ));
            assert(mids.take(inherited.len() as int) =~= inherited);
        }
    }
}

/// Every route of the subdirectories starts its chain with the middleware they
/// inherit.
proof fn lemma_subdirs_chains(ds: Seq<DirListing>, parent: Seq<SegView>, mids: Seq<Node>)
    ensures
        forall|k: int|
            0 <= k < subdirs_routes(ds, parent, mids).len() ==> (#[trigger] subdirs_routes(ds, parent, mids)[k]).chain.len()
                > mids.len() && subdirs_routes(ds, parent, mids)[k].chain.take(mids.len() as int) == mids,
    decreases ds,
{
    if ds.len() > 0 {
        let d = ds.last();
        let rest = subdirs_routes(ds.drop_last(), parent, mids);
        lemma_subdirs_chains(ds.drop_last(), parent, mids);
        match d.name {
            Some(n) => {
                let p2 = parent.push(seg_of_name(n@));
                lemma_dir_chains(d, p2, mids);
                let own = dir_routes(d, p2, mids);
                let all = subdirs_routes(ds, parent, mids);
                assert(all == own + rest);
                assert forall|k: int| 0 <= k < all.len() implies (#[trigger] all[k]).chain.len() > mids.len()
                    && all[k].chain.take(mids.len() as int) == mids by {
                    if k < own.len() {
                        assert(all[k] == own[k]);
                    } else {
                        assert(all[k] == rest[k - own.len()]);
                    }
                }
            },
            None => {},
        }
    }
}

/// Middleware applies to its directory and everything below it: every route
/// found in a directory runs the middleware it inherits, then that directory's
/// own middleware (in file order), before anything else; a route at the
/// directory's own path then runs its endpoint.
pub proof fn law_middleware_applies_below(d: DirListing, parent: Seq<SegView>, inherited: Seq<Node>)
    ensures
        forall|k: int|
            0 <= k < dir_routes(d, parent, inherited).len() ==> (#[trigger] dir_routes(d, parent, inherited)[k]).chain.take(
                (inherited + files_middleware(d.files@)).len() as int,
            ) == inherited + files_middleware(d.files@),
        forall|i: int|
            0 <= i < files_endpoints(d.files@).len() ==> (#[trigger] dir_routes(d, parent, inherited)[i]).chain
                == (inherited + files_middleware(d.files@)).push(files_endpoints(d.files@)[i]),
{
    let mids = inherited + files_middleware(d.files@);
    let eps = files_endpoints(d.files@);
    let sub = subdirs_routes(d.dirs@, parent, mids);
    lemma_subdirs_chains(d.dirs@, parent, mids);
    let rs = dir_routes(d, parent, inherited);
    assert forall|k: int| 0 <= k < rs.len() implies (#[trigger] rs[k]).chain.take(mids.len() as int) == mids by {
        if k < eps.len() {
            assert(mids.push(eps[k]).take(mids.len() as int) =~= mids);
        } else {
            assert(rs[k] == sub[k - eps.len()]);
        }
    }
}

} // verus!
