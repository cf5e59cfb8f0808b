//! The persistent vectors and maps of the `im` crate, as the library uses them.
//!
//! Each element type the library stores in an `im::Vector` has a name for the
//! sequence a vector holds and wrappers for the methods the logic calls. The
//! contracts state what `im` documents and implements: `Vector` is an ordered
//! sequence; `push_back`, `pop_front`, `append`, `set` and `get` act on it as their
//! names say, and `clone` shares the same elements. When a vector is shared, `im`
//! copies elements with their `Clone`, which for the element types here copies every
//! field, so the sequence is the same either way.
use vstd::prelude::*;
use crate::condition::{ConditionNode, ConditionType};
use crate::gentree::GenRoute;
use crate::http::Method;
use crate::router::{Node, Route, RouteSeg};

verus! {

#[verifier::external_type_specification]
#[verifier::external_body]
#[verifier::reject_recursive_types(A)]
pub struct ExImVector<A>(im::Vector<A>);

#[verifier::external_type_specification]
#[verifier::external_body]
#[verifier::reject_recursive_types(K)]
#[verifier::reject_recursive_types(V)]
#[verifier::reject_recursive_types(S)]
pub struct ExImHashMap<K, V, S>(im::HashMap<K, V, S>);

/// `Clone` of `im::Vector` for any element type, so that types holding vectors can
/// derive `Clone`. Nothing is stated here; the per-type `..._clone` wrappers below
/// state what a clone holds.
pub assume_specification<A: Clone>[ <im::Vector<A> as Clone>::clone ](v: &im::Vector<A>) -> im::Vector<A>;

/// A map of `im` from names to text.
pub type StrMap = im::HashMap<String, String>;

/// A map of `im` from file names to their bytes.
pub type FileMap = im::HashMap<String, Vec<u8>>;

/// The sequence of route nodes that an `im::Vector` holds.
pub uninterp spec fn node_vec(v: im::Vector<Node>) -> Seq<Node>;

/// `im::Vector::new`: an empty vector.
#[verifier::external_body]
pub(crate) fn node_vec_new() -> (r: im::Vector<Node>)
    ensures
        node_vec(r) == Seq::<Node>::empty(),
{
    im::Vector::new()
}

/// `im::Vector::len`: the number of elements.
#[verifier::external_body]
pub(crate) fn node_vec_len(v: &im::Vector<Node>) -> (r: usize)
    ensures
        r == node_vec(*v).len(),
{
    v.len()
}

/// Indexing an `im::Vector` (it panics out of bounds, which `requires` rules out).
#[verifier::external_body]
pub(crate) fn node_vec_get(v: &im::Vector<Node>, i: usize) -> (r: &Node)
    requires
        i < node_vec(*v).len(),
    ensures
        *r == node_vec(*v)[i as int],
{
    &v[i]
}

/// `im::Vector::push_back`: appends one element.
#[verifier::external_body]
pub(crate) fn node_vec_push_back(v: &mut im::Vector<Node>, x: Node)
    ensures
        node_vec(*final(v)) == node_vec(*old(v)).push(x),
{
    v.push_back(x)
}

/// `im::Vector::pop_front`: removes and returns the first element, if any.
#[verifier::external_body]
pub(crate) fn node_vec_pop_front(v: &mut im::Vector<Node>) -> (r: Option<Node>)
    ensures
        node_vec(*old(v)).len() == 0 ==> r is None && node_vec(*final(v)) == node_vec(*old(v)),
        node_vec(*old(v)).len() > 0 ==> r == Some(node_vec(*old(v))[0]) && node_vec(*final(v))
            == node_vec(*old(v)).drop_first(),
{
    v.pop_front()
}

/// `Clone` of `im::Vector`: a vector sharing the same elements.
#[verifier::external_body]
pub(crate) fn node_vec_clone(v: &im::Vector<Node>) -> (r: im::Vector<Node>)
    ensures
        node_vec(r) == node_vec(*v),
{
    v.clone()
}

/// The sequence of path segments that an `im::Vector` holds.
pub uninterp spec fn seg_vec(v: im::Vector<RouteSeg>) -> Seq<RouteSeg>;

/// `im::Vector::new`: an empty vector.
#[verifier::external_body]
pub(crate) fn seg_vec_new() -> (r: im::Vector<RouteSeg>)
    ensures
        seg_vec(r) == Seq::<RouteSeg>::empty(),
{
    im::Vector::new()
}

/// `im::Vector::len`: the number of elements.
#[verifier::external_body]
pub(crate) fn seg_vec_len(v: &im::Vector<RouteSeg>) -> (r: usize)
    ensures
        r == seg_vec(*v).len(),
{
    v.len()
}

/// Indexing an `im::Vector` (it panics out of bounds, which `requires` rules out).
#[verifier::external_body]
pub(crate) fn seg_vec_get(v: &im::Vector<RouteSeg>, i: usize) -> (r: &RouteSeg)
    requires
        i < seg_vec(*v).len(),
    ensures
        *r == seg_vec(*v)[i as int],
{
    &v[i]
}

/// `im::Vector::push_back`: appends one element.
#[verifier::external_body]
pub(crate) fn seg_vec_push_back(v: &mut im::Vector<RouteSeg>, x: RouteSeg)
    ensures
        seg_vec(*final(v)) == seg_vec(*old(v)).push(x),
{
    v.push_back(x)
}

/// `Clone` of `im::Vector`: a vector sharing the same elements.
#[verifier::external_body]
pub(crate) fn seg_vec_clone(v: &im::Vector<RouteSeg>) -> (r: im::Vector<RouteSeg>)
    ensures
        seg_vec(r) == seg_vec(*v),
{
    v.clone()
}

/// The sequence of routes that an `im::Vector` holds.
pub uninterp spec fn route_vec(v: im::Vector<Route>) -> Seq<Route>;

/// `im::Vector::new`: an empty vector.
#[verifier::external_body]
pub(crate) fn route_vec_new() -> (r: im::Vector<Route>)
    ensures
        route_vec(r) == Seq::<Route>::empty(),
{
    im::Vector::new()
}

/// `im::Vector::len`: the number of elements.
#[verifier::external_body]
pub(crate) fn route_vec_len(v: &im::Vector<Route>) -> (r: usize)
    ensures
        r == route_vec(*v).len(),
{
    v.len()
}

/// Indexing an `im::Vector` (it panics out of bounds, which `requires` rules out).
#[verifier::external_body]
pub(crate) fn route_vec_get(v: &im::Vector<Route>, i: usize) -> (r: &Route)
    requires
        i < route_vec(*v).len(),
    ensures
        *r == route_vec(*v)[i as int],
{
    &v[i]
}

/// `im::Vector::push_back`: appends one element.
#[verifier::external_body]
pub(crate) fn route_vec_push_back(v: &mut im::Vector<Route>, x: Route)
    ensures
        route_vec(*final(v)) == route_vec(*old(v)).push(x),
{
    v.push_back(x)
}

/// `im::Vector::pop_front`: removes and returns the first element, if any.
#[verifier::external_body]
pub(crate) fn route_vec_pop_front(v: &mut im::Vector<Route>) -> (r: Option<Route>)
    ensures
        route_vec(*old(v)).len() == 0 ==> r is None && route_vec(*final(v)) == route_vec(*old(v)),
        route_vec(*old(v)).len() > 0 ==> r == Some(route_vec(*old(v))[0]) && route_vec(*final(v))
            == route_vec(*old(v)).drop_first(),
{
    v.pop_front()
}

/// `im::Vector::append`: moves the elements of `other` to the end.
#[verifier::external_body]
pub(crate) fn route_vec_append(v: &mut im::Vector<Route>, other: im::Vector<Route>)
    requires
        route_vec(*old(v)).len() + route_vec(other).len() <= usize::MAX,
    ensures
        route_vec(*final(v)) == route_vec(*old(v)) + route_vec(other),
{
    v.append(other)
}

/// `Clone` of `im::Vector`: a vector sharing the same elements.
#[verifier::external_body]
pub(crate) fn route_vec_clone(v: &im::Vector<Route>) -> (r: im::Vector<Route>)
    ensures
        route_vec(r) == route_vec(*v),
{
    v.clone()
}

/// The sequence of route groups, each under its condition that an `im::Vector` holds.
pub uninterp spec fn group_vec(v: im::Vector<(ConditionType, im::Vector<Route>)>) -> Seq<(ConditionType, im::Vector<Route>)>;

/// `im::Vector::new`: an empty vector.
#[verifier::external_body]
pub(crate) fn group_vec_new() -> (r: im::Vector<(ConditionType, im::Vector<Route>)>)
    ensures
        group_vec(r) == Seq::<(ConditionType, im::Vector<Route>)>::empty(),
{
    im::Vector::new()
}

/// `im::Vector::len`: the number of elements.
#[verifier::external_body]
pub(crate) fn group_vec_len(v: &im::Vector<(ConditionType, im::Vector<Route>)>) -> (r: usize)
    ensures
        r == group_vec(*v).len(),
{
    v.len()
}

/// Indexing an `im::Vector` (it panics out of bounds, which `requires` rules out).
#[verifier::external_body]
pub(crate) fn group_vec_get(v: &im::Vector<(ConditionType, im::Vector<Route>)>, i: usize) -> (r: &(ConditionType, im::Vector<Route>))
    requires
        i < group_vec(*v).len(),
    ensures
        *r == group_vec(*v)[i as int],
{
    &v[i]
}

/// `im::Vector::push_back`: appends one element.
#[verifier::external_body]
pub(crate) fn group_vec_push_back(v: &mut im::Vector<(ConditionType, im::Vector<Route>)>, x: (ConditionType, im::Vector<Route>))
    ensures
        group_vec(*final(v)) == group_vec(*old(v)).push(x),
{
    v.push_back(x)
}

/// `im::Vector::set`: replaces the element at `i` and returns the old one (it panics
/// out of bounds, which `requires` rules out).
#[verifier::external_body]
pub(crate) fn group_vec_set(v: &mut im::Vector<(ConditionType, im::Vector<Route>)>, i: usize, x: (ConditionType, im::Vector<Route>)) -> (r: (ConditionType, im::Vector<Route>))
    requires
        i < group_vec(*old(v)).len(),
    ensures
        r == group_vec(*old(v))[i as int],
        group_vec(*final(v)) == group_vec(*old(v)).update(i as int, x),
{
    v.set(i, x)
}

/// The sequence of condition nodes that an `im::Vector` holds.
pub uninterp spec fn cnode_vec(v: im::Vector<ConditionNode>) -> Seq<ConditionNode>;

/// `im::Vector::new`: an empty vector.
#[verifier::external_body]
pub(crate) fn cnode_vec_new() -> (r: im::Vector<ConditionNode>)
    ensures
        cnode_vec(r) == Seq::<ConditionNode>::empty(),
{
    im::Vector::new()
}

/// `im::Vector::len`: the number of elements.
#[verifier::external_body]
pub(crate) fn cnode_vec_len(v: &im::Vector<ConditionNode>) -> (r: usize)
    ensures
        r == cnode_vec(*v).len(),
{
    v.len()
}

/// Indexing an `im::Vector` (it panics out of bounds, which `requires` rules out).
#[verifier::external_body]
pub(crate) fn cnode_vec_get(v: &im::Vector<ConditionNode>, i: usize) -> (r: &ConditionNode)
    requires
        i < cnode_vec(*v).len(),
    ensures
        *r == cnode_vec(*v)[i as int],
{
    &v[i]
}

/// `im::Vector::push_back`: appends one element.
#[verifier::external_body]
pub(crate) fn cnode_vec_push_back(v: &mut im::Vector<ConditionNode>, x: ConditionNode)
    ensures
        cnode_vec(*final(v)) == cnode_vec(*old(v)).push(x),
{
    v.push_back(x)
}

/// `im::Vector::pop_front`: removes and returns the first element, if any.
#[verifier::external_body]
pub(crate) fn cnode_vec_pop_front(v: &mut im::Vector<ConditionNode>) -> (r: Option<ConditionNode>)
    ensures
        cnode_vec(*old(v)).len() == 0 ==> r is None && cnode_vec(*final(v)) == cnode_vec(*old(v)),
        cnode_vec(*old(v)).len() > 0 ==> r == Some(cnode_vec(*old(v))[0]) && cnode_vec(*final(v))
            == cnode_vec(*old(v)).drop_first(),
{
    v.pop_front()
}

/// `im::Vector::set`: replaces the element at `i` and returns the old one (it panics
/// out of bounds, which `requires` rules out).
#[verifier::external_body]
pub(crate) fn cnode_vec_set(v: &mut im::Vector<ConditionNode>, i: usize, x: ConditionNode) -> (r: ConditionNode)
    requires
        i < cnode_vec(*old(v)).len(),
    ensures
        r == cnode_vec(*old(v))[i as int],
        cnode_vec(*final(v)) == cnode_vec(*old(v)).update(i as int, x),
{
    v.set(i, x)
}

/// The sequence of condition nodes, each under the condition it was split by that an `im::Vector` holds.
pub uninterp spec fn split_vec(v: im::Vector<(ConditionType, ConditionNode)>) -> Seq<(ConditionType, ConditionNode)>;

/// `im::Vector::new`: an empty vector.
#[verifier::external_body]
pub(crate) fn split_vec_new() -> (r: im::Vector<(ConditionType, ConditionNode)>)
    ensures
        split_vec(r) == Seq::<(ConditionType, ConditionNode)>::empty(),
{
    im::Vector::new()
}

/// `im::Vector::len`: the number of elements.
#[verifier::external_body]
pub(crate) fn split_vec_len(v: &im::Vector<(ConditionType, ConditionNode)>) -> (r: usize)
    ensures
        r == split_vec(*v).len(),
{
    v.len()
}

/// Indexing an `im::Vector` (it panics out of bounds, which `requires` rules out).
#[verifier::external_body]
pub(crate) fn split_vec_get(v: &im::Vector<(ConditionType, ConditionNode)>, i: usize) -> (r: &(ConditionType, ConditionNode))
    requires
        i < split_vec(*v).len(),
    ensures
        *r == split_vec(*v)[i as int],
{
    &v[i]
}

/// `im::Vector::push_back`: appends one element.
#[verifier::external_body]
pub(crate) fn split_vec_push_back(v: &mut im::Vector<(ConditionType, ConditionNode)>, x: (ConditionType, ConditionNode))
    ensures
        split_vec(*final(v)) == split_vec(*old(v)).push(x),
{
    v.push_back(x)
}

/// `im::Vector::set`: replaces the element at `i` and returns the old one (it panics
/// out of bounds, which `requires` rules out).
#[verifier::external_body]
pub(crate) fn split_vec_set(v: &mut im::Vector<(ConditionType, ConditionNode)>, i: usize, x: (ConditionType, ConditionNode)) -> (r: (ConditionType, ConditionNode))
    requires
        i < split_vec(*old(v)).len(),
    ensures
        r == split_vec(*old(v))[i as int],
        split_vec(*final(v)) == split_vec(*old(v)).update(i as int, x),
{
    v.set(i, x)
}

/// The sequence of per-method stack references that an `im::Vector` holds.
pub uninterp spec fn stack_vec(v: im::Vector<(Method, String)>) -> Seq<(Method, String)>;

/// `im::Vector::new`: an empty vector.
#[verifier::external_body]
pub(crate) fn stack_vec_new() -> (r: im::Vector<(Method, String)>)
    ensures
        stack_vec(r) == Seq::<(Method, String)>::empty(),
{
    im::Vector::new()
}

/// `im::Vector::len`: the number of elements.
#[verifier::external_body]
pub(crate) fn stack_vec_len(v: &im::Vector<(Method, String)>) -> (r: usize)
    ensures
        r == stack_vec(*v).len(),
{
    v.len()
}

/// Indexing an `im::Vector` (it panics out of bounds, which `requires` rules out).
#[verifier::external_body]
pub(crate) fn stack_vec_get(v: &im::Vector<(Method, String)>, i: usize) -> (r: &(Method, String))
    requires
        i < stack_vec(*v).len(),
    ensures
        *r == stack_vec(*v)[i as int],
{
    &v[i]
}

/// `im::Vector::push_back`: appends one element.
#[verifier::external_body]
pub(crate) fn stack_vec_push_back(v: &mut im::Vector<(Method, String)>, x: (Method, String))
    ensures
        stack_vec(*final(v)) == stack_vec(*old(v)).push(x),
{
    v.push_back(x)
}

/// The sequence of generation routes that an `im::Vector` holds.
pub uninterp spec fn groute_vec(v: im::Vector<GenRoute>) -> Seq<GenRoute>;

/// `im::Vector::new`: an empty vector.
#[verifier::external_body]
pub(crate) fn groute_vec_new() -> (r: im::Vector<GenRoute>)
    ensures
        groute_vec(r) == Seq::<GenRoute>::empty(),
{
    im::Vector::new()
}

/// `im::Vector::len`: the number of elements.
#[verifier::external_body]
pub(crate) fn groute_vec_len(v: &im::Vector<GenRoute>) -> (r: usize)
    ensures
        r == groute_vec(*v).len(),
{
    v.len()
}

/// Indexing an `im::Vector` (it panics out of bounds, which `requires` rules out).
#[verifier::external_body]
pub(crate) fn groute_vec_get(v: &im::Vector<GenRoute>, i: usize) -> (r: &GenRoute)
    requires
        i < groute_vec(*v).len(),
    ensures
        *r == groute_vec(*v)[i as int],
{
    &v[i]
}

/// `im::Vector::push_back`: appends one element.
#[verifier::external_body]
pub(crate) fn groute_vec_push_back(v: &mut im::Vector<GenRoute>, x: GenRoute)
    ensures
        groute_vec(*final(v)) == groute_vec(*old(v)).push(x),
{
    v.push_back(x)
}

/// The map without entries.
pub open spec fn no_entries() -> Map<Seq<char>, Seq<char>> {
    Map::empty()
}

/// The map without files.
pub open spec fn no_files() -> Map<Seq<char>, Seq<u8>> {
    Map::empty()
}

/// The entries of a string map of `im`, as a map of views.
pub uninterp spec fn str_map(m: StrMap) -> Map<Seq<char>, Seq<char>>;

/// `im::HashMap::new`: an empty map.
#[verifier::external_body]
pub(crate) fn str_map_new() -> (r: StrMap)
    ensures
        str_map(r) == no_entries(),
{
    im::HashMap::new()
}

/// `im::HashMap::get`: the value under a key, if any. Keys are compared by their
/// characters, as `String`'s `Eq` and `Hash` do.
#[verifier::external_body]
pub(crate) fn str_map_get<'a>(m: &'a StrMap, key: &str) -> (r: Option<&'a String>)
    ensures
        str_map(*m).contains_key(key@) ==> r is Some && r->0@ == str_map(*m)[key@],
        !str_map(*m).contains_key(key@) ==> r is None,
{
    m.get(key)
}

/// `im::HashMap::insert`: sets the value under a key, replacing an earlier one.
#[verifier::external_body]
pub(crate) fn str_map_insert(m: &mut StrMap, key: String, val: String)
    ensures
        str_map(*final(m)) == str_map(*old(m)).insert(key@, val@),
{
    m.insert(key, val);
}

/// The files of a stack context of `im`: name to bytes.
pub uninterp spec fn file_map(m: FileMap) -> Map<Seq<char>, Seq<u8>>;

/// `im::HashMap::new`: no files.
#[verifier::external_body]
pub(crate) fn file_map_new() -> (r: FileMap)
    ensures
        file_map(r) == no_files(),
{
    im::HashMap::new()
}

/// `im::HashMap::get`: the bytes of a file, if there is one of that name. Keys are
/// compared by their characters, as `String`'s `Eq` and `Hash` do.
#[verifier::external_body]
pub(crate) fn file_map_get<'a>(m: &'a FileMap, name: &str) -> (r: Option<&'a Vec<u8>>)
    ensures
        file_map(*m).contains_key(name@) ==> r is Some && r->0@ == file_map(*m)[name@],
        !file_map(*m).contains_key(name@) ==> r is None,
{
    m.get(name)
}

/// `im::HashMap::insert`: sets the bytes of a file, replacing earlier ones.
#[verifier::external_body]
pub(crate) fn file_map_insert(m: &mut FileMap, name: String, bytes: Vec<u8>)
    ensures
        file_map(*final(m)) == file_map(*old(m)).insert(name@, bytes@),
{
    m.insert(name, bytes);
}

} // verus!
