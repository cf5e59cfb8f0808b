//! The condition tree: routes partitioned level by level on cheap conditions.
use vstd::prelude::*;
use vstd::multiset::Multiset;
use crate::collections::{
    cnode_vec, cnode_vec_get, cnode_vec_len, cnode_vec_push_back, cnode_vec_set, group_vec, route_vec, route_vec_append,
    route_vec_clone, route_vec_new, split_vec, split_vec_get, split_vec_len,
    split_vec_new, split_vec_push_back, split_vec_set, group_vec_len, group_vec_set,
    cnode_vec_new, cnode_vec_pop_front,
};
use crate::router::Route;

verus! {

broadcast use {vstd::multiset::group_multiset_axioms, vstd::seq_lib::group_to_multiset_ensures};

/// A custom condition, held by its identity and its type name. Two custom
/// conditions are the same condition when they have the same identity.
#[derive(Clone, Debug)]
pub struct CustomRef {
    pub id: u64,
    pub kind: String,
}

/// A result as plain values.
pub open spec fn result_view(r: Result<usize, String>) -> Result<usize, Seq<char>> {
    match r {
        Ok(i) => Ok(i),
        Err(e) => Err(e@),
    }
}

/// A user-provided condition: it names its type and prints the decision code for
/// the levels under it. Implementations are the user's: what one prints is its
/// `gen_spec`, which this library takes on trust.
pub trait CustomCondition {
    /// What printing the decision for levels (as plain values) at an indentation
    /// gives, from the text before: the result (the indentation after it, or an
    /// error) and the text after. Each implementation has its own; the body here
    /// (no decision) holds only for one that gives none, and code generic over the
    /// implementation knows nothing of it.
    closed spec fn gen_spec(&self, nodes: Seq<CondView>, indent: usize, before: Seq<char>) -> (
        Result<usize, Seq<char>>,
        Seq<char>,
    ) {
        (Err(seq![]), before)
    }

    /// The condition's type name.
    fn get_type(&self) -> String;

    /// Prints the decision for the levels under this condition at an indentation
    /// and returns the indentation after it.
    fn gen_code(&self, nodes: &Vec<ConditionNode>, indent: usize, writer: &mut String) -> (r: Result<usize, String>)
        ensures
            (result_view(r), final(writer)@) == self.gen_spec(cviews(nodes@), indent, old(writer)@),
    ;
}

/// A condition that partitions routes.
#[derive(Clone, Debug)]
pub enum ConditionType {
    /// The number of path segments.
    SegmentCount(usize),
    /// The length of the path string, in bytes.
    Length(usize),
    /// A shared path prefix.
    Prefix(String),
    Custom(CustomRef),
}

/// What identifies a condition: equal keys are equal conditions.
pub enum CondKey {
    SegmentCount(usize),
    Length(usize),
    Prefix(Seq<char>),
    Custom(u64),
}

impl ConditionType {
    pub open spec fn key(self) -> CondKey {
        match self {
            ConditionType::SegmentCount(n) => CondKey::SegmentCount(n),
            ConditionType::Length(n) => CondKey::Length(n),
            ConditionType::Prefix(p) => CondKey::Prefix(p@),
            ConditionType::Custom(c) => CondKey::Custom(c.id),
        }
    }

    /// A copy of the condition.
    pub fn duplicate(&self) -> (r: ConditionType)
        ensures
            r == *self,
    {
        match self {
            ConditionType::SegmentCount(n) => ConditionType::SegmentCount(*n),
            ConditionType::Length(n) => ConditionType::Length(*n),
            ConditionType::Prefix(p) => ConditionType::Prefix(p.clone()),
            ConditionType::Custom(c) => ConditionType::Custom(CustomRef { id: c.id, kind: c.kind.clone() }),
        }
    }

    /// The name of the condition's kind; a custom condition's own type name.
    pub fn get_type(&self) -> (s: String)
        ensures
            s@ == match self {
                ConditionType::SegmentCount(_) => "SegmentCount"@,
                ConditionType::Length(_) => "Length"@,
                ConditionType::Prefix(_) => "Prefix"@,
                ConditionType::Custom(c) => c.kind@,
            },
    {
        match self {
            ConditionType::SegmentCount(_) => String::from_str("SegmentCount"),
            ConditionType::Length(_) => String::from_str("Length"),
            ConditionType::Prefix(_) => String::from_str("Prefix"),
            ConditionType::Custom(c) => c.kind.clone(),
        }
    }
}

impl PartialEq for ConditionType {
    fn eq(&self, other: &Self) -> (r: bool) {
        match (self, other) {
            (ConditionType::SegmentCount(a), ConditionType::SegmentCount(b)) => *a == *b,
            (ConditionType::Prefix(a), ConditionType::Prefix(b)) => *a == *b,
            (ConditionType::Custom(a), ConditionType::Custom(b)) => a.id == b.id,
            (ConditionType::Length(a), ConditionType::Length(b)) => *a == *b,
            _ => false,
        }
    }
}

impl vstd::std_specs::cmp::PartialEqSpecImpl for ConditionType {
    open spec fn obeys_eq_spec() -> bool {
        true
    }

    open spec fn eq_spec(&self, other: &Self) -> bool {
        self.key() == other.key()
    }
}

/// A level of the condition tree: a condition, the subtrees below it, and the
/// routes stored at it.
#[derive(Debug)]
pub struct ConditionNode {
    pub condition: ConditionType,
    pub children: Vec<ConditionNode>,
    pub stored_routes: im::Vector<Route>,
}

/// Two subtrees are alike: the same conditions and the same routes, level by
/// level.
pub open spec fn same_tree(a: ConditionNode, b: ConditionNode) -> bool
    decreases a,
{
    &&& a.condition == b.condition
    &&& route_vec(a.stored_routes) == route_vec(b.stored_routes)
    &&& a.children@.len() == b.children@.len()
    &&& forall|i: int| 0 <= i < a.children@.len() ==> same_tree(#[trigger] a.children@[i], b.children@[i])
}

impl ConditionNode {
    /// A copy of the subtree, holding the same routes.
    pub fn deep_copy(&self) -> (r: ConditionNode)
        ensures
            same_tree(r, *self),
            node_routes(r) == node_routes(*self),
        decreases self,
    {
        let mut children: Vec<ConditionNode> = Vec::new();
        let mut i: usize = 0;
        while i < self.children.len()
            invariant
                i <= self.children.len(),
                children.len() == i,
                nodes_routes(children@) == nodes_routes(self.children@.take(i as int)),
                forall|j: int| 0 <= j < i ==> same_tree(#[trigger] children@[j], self.children@[j]),
            decreases self.children.len() - i,
        {
            let c = self.children[i].deep_copy();
            let ghost before = children@;
            children.push(c);
            assert(children@.drop_last() =~= before);
            assert(self.children@.take(i + 1).drop_last() =~= self.children@.take(i as int));
            i = i + 1;
        }
        assert(self.children@.take(i as int) =~= self.children@);
        ConditionNode {
            condition: self.condition.duplicate(),
            children,
            stored_routes: route_vec_clone(&self.stored_routes),
        }
    }
}

impl Clone for ConditionNode {
    /// A copy of the subtree.
    fn clone(&self) -> (r: Self)
        ensures
            same_tree(r, *self),
    {
        self.deep_copy()
    }
}

/// The root of the condition tree: its subtrees and the routes not yet partitioned.
#[derive(Debug)]
pub struct ConditionTree {
    children: im::Vector<ConditionNode>,
    stored_routes: im::Vector<Route>,
}

/// Every route stored in a subtree, counted with multiplicity.
pub open spec fn node_routes(n: ConditionNode) -> Multiset<Route>
    decreases n,
{
    route_vec(n.stored_routes).to_multiset().add(nodes_routes(n.children@))
}

/// Every route stored in a sequence of subtrees.
pub open spec fn nodes_routes(s: Seq<ConditionNode>) -> Multiset<Route>
    decreases s,
{
    if s.len() == 0 {
        Multiset::empty()
    } else {
        nodes_routes(s.drop_last()).add(node_routes(s.last()))
    }
}

} // verus!

verus! {


/// Every route of a sequence of route groups.
pub open spec fn groups_routes(s: Seq<(ConditionType, im::Vector<Route>)>) -> Multiset<Route>
    decreases s.len(),
{
    if s.len() == 0 {
        Multiset::empty()
    } else {
        groups_routes(s.drop_last()).add(route_vec(s.last().1).to_multiset())
    }
}

/// Route groups as plain sequences.
pub open spec fn groups_view(s: Seq<(ConditionType, im::Vector<Route>)>) -> Seq<(ConditionType, Seq<Route>)> {
    s.map_values(|g: (ConditionType, im::Vector<Route>)| (g.0, route_vec(g.1)))
}

/// No two groups are under equal conditions.
pub open spec fn groups_keys_distinct(s: Seq<(ConditionType, im::Vector<Route>)>) -> bool {
    forall|i: int, j: int| 0 <= i < j < s.len() ==> #[trigger] s[i].0.key() != #[trigger] s[j].0.key()
}

/// Every route of a sequence of subtrees, each under a condition.
pub open spec fn split_routes(s: Seq<(ConditionType, ConditionNode)>) -> Multiset<Route>
    decreases s.len(),
{
    if s.len() == 0 {
        Multiset::empty()
    } else {
        split_routes(s.drop_last()).add(node_routes(s.last().1))
    }
}

pub open spec fn split_keys_distinct(s: Seq<(ConditionType, ConditionNode)>) -> bool {
    forall|i: int, j: int| 0 <= i < j < s.len() ==> #[trigger] s[i].0.key() != #[trigger] s[j].0.key()
}

/// Every route of each subtree belongs under the condition the subtree stands under.
pub open spec fn split_fits<P: Partitioner>(s: Seq<(ConditionType, ConditionNode)>) -> bool {
    forall|i: int, r: Route|
        0 <= i < s.len() && #[trigger] node_routes(s[i].1).count(r) > 0 ==> P::fits(s[i].0.key(), r)
}

/// No two subtrees have equal conditions.
pub open spec fn children_keys_distinct(s: Seq<ConditionNode>) -> bool {
    forall|i: int, j: int|
        0 <= i < j < s.len() ==> #[trigger] s[i].condition.key() != #[trigger] s[j].condition.key()
}

/// Every route of each subtree belongs under the subtree's condition.
pub open spec fn children_fit<P: Partitioner>(s: Seq<ConditionNode>) -> bool {
    forall|i: int, r: Route|
        0 <= i < s.len() && #[trigger] node_routes(s[i]).count(r) > 0 ==> P::fits(s[i].condition.key(), r)
}

/// The tree as plain sequences.
pub struct TreeView {
    pub children: Seq<ConditionNode>,
    pub stored: Seq<Route>,
}

/// Every route in the tree, counted with multiplicity.
pub open spec fn tree_routes(t: TreeView) -> Multiset<Route> {
    t.stored.to_multiset().add(nodes_routes(t.children))
}

/// What a pass leaves: the same routes, none left at the root, root subtrees under
/// pairwise different conditions, each holding only routes that belong under its
/// condition.
pub open spec fn pass_applied<P: Partitioner>(before: TreeView, after: TreeView) -> bool {
    &&& tree_routes(after) == tree_routes(before)
    &&& after.stored.len() == 0
    &&& children_keys_distinct(after.children)
    &&& children_fit::<P>(after.children)
}

/// A subtree as plain values: its condition, the subtrees below it, and the
/// routes stored at it.
#[verifier::ext_equal]
pub struct CondView {
    pub cond: ConditionType,
    pub children: Seq<CondView>,
    pub routes: Seq<Route>,
}

/// A subtree as plain values.
pub open spec fn cview(n: ConditionNode) -> CondView
    decreases n, 1nat,
{
    CondView { cond: n.condition, children: cviews(n.children@), routes: route_vec(n.stored_routes) }
}

/// Subtrees as plain values.
pub open spec fn cviews(ns: Seq<ConditionNode>) -> Seq<CondView>
    decreases ns, 0nat,
{
    if ns.len() == 0 {
        seq![]
    } else {
        cviews(ns.drop_last()).push(cview(ns.last()))
    }
}

/// Parts of a subtree, each under a condition, as plain values.
pub open spec fn splits_view(s: Seq<(ConditionType, ConditionNode)>) -> Seq<(ConditionType, CondView)> {
    s.map_values(|e: (ConditionType, ConditionNode)| (e.0, cview(e.1)))
}

/// The subtree with one more subtree below it.
pub open spec fn with_child(v: CondView, c: CondView) -> CondView {
    CondView { cond: v.cond, children: v.children.push(c), routes: v.routes }
}

/// The subtree with more routes stored at it.
pub open spec fn with_routes(v: CondView, rs: Seq<Route>) -> CondView {
    CondView { cond: v.cond, children: v.children, routes: v.routes + rs }
}

/// The index of the first part under a condition with key `k`, if any.
pub open spec fn split_index(s: Seq<(ConditionType, CondView)>, k: CondKey) -> Option<int>
    decreases s.len(),
{
    if s.len() == 0 {
        None
    } else {
        match split_index(s.drop_last(), k) {
            Some(i) => Some(i),
            None => if s.last().0.key() == k {
                Some(s.len() - 1)
            } else {
                None
            },
        }
    }
}

/// The index of the first subtree whose condition has key `k`, if any.
pub open spec fn child_index(cs: Seq<CondView>, k: CondKey) -> Option<int>
    decreases cs.len(),
{
    if cs.len() == 0 {
        None
    } else {
        match child_index(cs.drop_last(), k) {
            Some(i) => Some(i),
            None => if cs.last().cond.key() == k {
                Some(cs.len() - 1)
            } else {
                None
            },
        }
    }
}

/// A part of a subtree filed under the condition `k`: below the part already
/// under it, or below a new part under `k` whose own condition is `cond`.
pub open spec fn file_part(s: Seq<(ConditionType, CondView)>, k: ConditionType, part: CondView, cond: ConditionType) -> Seq<
    (ConditionType, CondView),
> {
    match split_index(s, k.key()) {
        Some(i) => s.update(i, (s[i].0, with_child(s[i].1, part))),
        None => s.push((k, CondView { cond, children: seq![part], routes: seq![] })),
    }
}

/// Parts filed in order.
pub open spec fn file_parts(
    s: Seq<(ConditionType, CondView)>,
    parts: Seq<(ConditionType, CondView)>,
    cond: ConditionType,
) -> Seq<(ConditionType, CondView)>
    decreases parts.len(),
{
    if parts.len() == 0 {
        s
    } else {
        let prev = file_parts(s, parts.drop_last(), cond);
        file_part(prev, parts.last().0, parts.last().1, cond)
    }
}

/// A group of routes filed under the condition `k`: into the part already under
/// it, or into a new part under `k` whose own condition is `cond`.
pub open spec fn file_group(s: Seq<(ConditionType, CondView)>, k: ConditionType, rs: Seq<Route>, cond: ConditionType) -> Seq<
    (ConditionType, CondView),
> {
    match split_index(s, k.key()) {
        Some(i) => s.update(i, (s[i].0, with_routes(s[i].1, rs))),
        None => s.push((k, CondView { cond, children: seq![], routes: rs })),
    }
}

/// Groups filed in order.
pub open spec fn file_groups(
    s: Seq<(ConditionType, CondView)>,
    gs: Seq<(ConditionType, Seq<Route>)>,
    cond: ConditionType,
) -> Seq<(ConditionType, CondView)>
    decreases gs.len(),
{
    if gs.len() == 0 {
        s
    } else {
        let prev = file_groups(s, gs.drop_last(), cond);
        file_group(prev, gs.last().0, gs.last().1, cond)
    }
}

/// How a pass splits a subtree: one copy of the subtree per condition of the pass,
/// each keeping the subtree's own condition and holding what falls under that
/// condition: the parts of the subtrees below it, then the groups of its own routes.
pub open spec fn split_of<P: Partitioner>(v: CondView) -> Seq<(ConditionType, CondView)>
    decreases v, 1nat,
{
    file_groups(split_children::<P>(v.children, v.cond), P::groups(v.routes), v.cond)
}

/// The parts of the subtrees below a subtree whose condition is `cond`, filed in
/// order into copies of that subtree.
pub open spec fn split_children<P: Partitioner>(cs: Seq<CondView>, cond: ConditionType) -> Seq<
    (ConditionType, CondView),
>
    decreases cs, 0nat,
{
    if cs.len() == 0 {
        seq![]
    } else {
        file_parts(split_children::<P>(cs.drop_last(), cond), split_of::<P>(cs.last()), cond)
    }
}

/// A part filed at the root: below the root subtree under its condition, or below
/// a new root subtree under it.
pub open spec fn root_part(cs: Seq<CondView>, k: ConditionType, part: CondView) -> Seq<CondView> {
    match child_index(cs, k.key()) {
        Some(i) => cs.update(i, with_child(cs[i], part)),
        None => cs.push(CondView { cond: k, children: seq![part], routes: seq![] }),
    }
}

/// Parts filed at the root in order.
pub open spec fn root_parts(cs: Seq<CondView>, parts: Seq<(ConditionType, CondView)>) -> Seq<CondView>
    decreases parts.len(),
{
    if parts.len() == 0 {
        cs
    } else {
        root_part(root_parts(cs, parts.drop_last()), parts.last().0, parts.last().1)
    }
}

/// A group of routes filed at the root: into the root subtree under its
/// condition, or into a new root subtree under it.
pub open spec fn root_group(cs: Seq<CondView>, k: ConditionType, rs: Seq<Route>) -> Seq<CondView> {
    match child_index(cs, k.key()) {
        Some(i) => cs.update(i, with_routes(cs[i], rs)),
        None => cs.push(CondView { cond: k, children: seq![], routes: rs }),
    }
}

/// Groups filed at the root in order.
pub open spec fn root_groups(cs: Seq<CondView>, gs: Seq<(ConditionType, Seq<Route>)>) -> Seq<CondView>
    decreases gs.len(),
{
    if gs.len() == 0 {
        cs
    } else {
        root_group(root_groups(cs, gs.drop_last()), gs.last().0, gs.last().1)
    }
}

/// The root subtrees made from the parts of the old root subtrees, in order.
pub open spec fn root_children<P: Partitioner>(olds: Seq<CondView>) -> Seq<CondView>
    decreases olds.len(),
{
    if olds.len() == 0 {
        seq![]
    } else {
        root_parts(root_children::<P>(olds.drop_last()), split_of::<P>(olds.last()))
    }
}

/// The root subtrees after a pass inserts its level: every old root subtree split
/// by the pass and its parts filed at the root, then the groups of the
/// unpartitioned routes.
pub open spec fn inserted<P: Partitioner>(olds: Seq<CondView>, stored: Seq<Route>) -> Seq<CondView> {
    root_groups(root_children::<P>(olds), P::groups(stored))
}

/// A way of splitting routes into groups under conditions.
pub trait Partitioner: Sized {
    /// Whether a route belongs under a condition with this key.
    spec fn fits(key: CondKey, r: Route) -> bool;

    /// The groups this pass makes of routes: each condition with its routes.
    spec fn groups(routes: Seq<Route>) -> Seq<(ConditionType, Seq<Route>)>;

    /// Splits routes into groups under this pass's conditions.
    fn partition(&mut self, routes: im::Vector<Route>) -> (out: im::Vector<
        (ConditionType, im::Vector<Route>),
    >)
        ensures
            groups_view(group_vec(out)) == Self::groups(route_vec(routes)),
            route_vec(routes).to_multiset() == groups_routes(group_vec(out)),
            groups_keys_distinct(group_vec(out)),
            forall|i: int, r: Route|
                0 <= i < group_vec(out).len() && #[trigger] route_vec(
                    group_vec(out)[i].1,
                ).to_multiset().count(r) > 0 ==> Self::fits(group_vec(out)[i].0.key(), r),
    ;
}

/// A pass inserts one level of conditions into the tree.
pub trait Pass: Partitioner {
    /// Inserts this pass's level at the root of the tree.
    fn run(&mut self, tree: &mut ConditionTree)
        requires
            tree_routes(old(tree)@).len() <= usize::MAX,
        ensures
            tree_routes(final(tree)@) == tree_routes(old(tree)@),
            final(tree)@.stored.len() == 0,
            children_keys_distinct(final(tree)@.children),
            forall|i: int, r: Route|
                0 <= i < final(tree)@.children.len() && #[trigger] node_routes(
                    final(tree)@.children[i],
                ).count(r) > 0 ==> Self::fits(final(tree)@.children[i].condition.key(), r),
            cviews(final(tree)@.children) == inserted::<Self>(cviews(old(tree)@.children), old(tree)@.stored),
    ;
}

impl View for ConditionTree {
    type V = TreeView;

    closed spec fn view(&self) -> TreeView {
        TreeView { children: cnode_vec(self.children), stored: route_vec(self.stored_routes) }
    }
}

pub proof fn lemma_nodes_routes_push(s: Seq<ConditionNode>, x: ConditionNode)
    ensures
        nodes_routes(s.push(x)) == nodes_routes(s).add(node_routes(x)),
{
    assert(s.push(x).drop_last() =~= s);
}

pub proof fn lemma_nodes_routes_update(s: Seq<ConditionNode>, j: int, x: ConditionNode)
    requires
        0 <= j < s.len(),
    ensures
        nodes_routes(s.update(j, x)).add(node_routes(s[j])) == nodes_routes(s).add(node_routes(x)),
    decreases s.len(),
{
    let u = s.update(j, x);
    if j == s.len() - 1 {
        assert(u.drop_last() =~= s.drop_last());
        assert(u.last() == x);
    } else {
        lemma_nodes_routes_update(s.drop_last(), j, x);
        assert(u.drop_last() =~= s.drop_last().update(j, x));
        assert(u.last() == s.last());
    }
    assert(nodes_routes(u) == nodes_routes(u.drop_last()).add(node_routes(u.last())));
    assert(nodes_routes(s) == nodes_routes(s.drop_last()).add(node_routes(s.last())));
    assert(s.drop_last().len() == s.len() - 1);
    if j < s.len() - 1 {
        assert(s.drop_last()[j] == s[j]);
    }
    assert forall|r: Route| #[trigger] nodes_routes(u).add(node_routes(s[j])).count(r)
        == nodes_routes(s).add(node_routes(x)).count(r) by {
        let a = nodes_routes(u.drop_last());
        let b = nodes_routes(s.drop_last());
        if j < s.len() - 1 {
            assert(a.add(node_routes(s[j])).count(r) == b.add(node_routes(x)).count(r));
        }
    }
    assert(nodes_routes(u).add(node_routes(s[j])) =~= nodes_routes(s).add(node_routes(x)));
}

pub proof fn lemma_nodes_routes_elem(s: Seq<ConditionNode>, j: int, r: Route)
    requires
        0 <= j < s.len(),
    ensures
        node_routes(s[j]).count(r) <= nodes_routes(s).count(r),
        node_routes(s[j]).len() <= nodes_routes(s).len(),
    decreases s.len(),
{
    if j < s.len() - 1 {
        lemma_nodes_routes_elem(s.drop_last(), j, r);
    }
}

pub proof fn lemma_split_routes_push(s: Seq<(ConditionType, ConditionNode)>, x: (ConditionType, ConditionNode))
    ensures
        split_routes(s.push(x)) == split_routes(s).add(node_routes(x.1)),
{
    assert(s.push(x).drop_last() =~= s);
}

pub proof fn lemma_split_routes_update(
    s: Seq<(ConditionType, ConditionNode)>,
    j: int,
    x: (ConditionType, ConditionNode),
)
    requires
        0 <= j < s.len(),
    ensures
        split_routes(s.update(j, x)).add(node_routes(s[j].1)) == split_routes(s).add(node_routes(x.1)),
    decreases s.len(),
{
    let u = s.update(j, x);
    if j == s.len() - 1 {
        assert(u.drop_last() =~= s.drop_last());
        assert(u.last() == x);
    } else {
        lemma_split_routes_update(s.drop_last(), j, x);
        assert(u.drop_last() =~= s.drop_last().update(j, x));
        assert(u.last() == s.last());
    }
    assert(split_routes(u) == split_routes(u.drop_last()).add(node_routes(u.last().1)));
    assert(split_routes(s) == split_routes(s.drop_last()).add(node_routes(s.last().1)));
    if j < s.len() - 1 {
        assert(s.drop_last()[j] == s[j]);
    }
    assert forall|r: Route| #[trigger] split_routes(u).add(node_routes(s[j].1)).count(r)
        == split_routes(s).add(node_routes(x.1)).count(r) by {
        let a = split_routes(u.drop_last());
        let b = split_routes(s.drop_last());
        if j < s.len() - 1 {
            assert(a.add(node_routes(s[j].1)).count(r) == b.add(node_routes(x.1)).count(r));
        }
    }
    assert(split_routes(u).add(node_routes(s[j].1)) =~= split_routes(s).add(node_routes(x.1)));
}

pub proof fn lemma_split_routes_elem(s: Seq<(ConditionType, ConditionNode)>, j: int)
    requires
        0 <= j < s.len(),
    ensures
        node_routes(s[j].1).len() <= split_routes(s).len(),
    decreases s.len(),
{
    if j < s.len() - 1 {
        lemma_split_routes_elem(s.drop_last(), j);
    }
}

pub proof fn lemma_groups_routes_prefix(s: Seq<(ConditionType, im::Vector<Route>)>, k: int)
    requires
        0 <= k <= s.len(),
    ensures
        groups_routes(s.take(k)).len() <= groups_routes(s).len(),
    decreases s.len(),
{
    if k < s.len() {
        lemma_groups_routes_prefix(s.drop_last(), k);
        assert(s.drop_last().take(k) =~= s.take(k));
    } else {
        assert(s.take(k) =~= s);
    }
}

pub proof fn lemma_groups_routes_push(
    s: Seq<(ConditionType, im::Vector<Route>)>,
    x: (ConditionType, im::Vector<Route>),
)
    ensures
        groups_routes(s.push(x)) == groups_routes(s).add(route_vec(x.1).to_multiset()),
{
    assert(s.push(x).drop_last() =~= s);
}

pub proof fn lemma_groups_routes_update(
    s: Seq<(ConditionType, im::Vector<Route>)>,
    j: int,
    x: (ConditionType, im::Vector<Route>),
)
    requires
        0 <= j < s.len(),
    ensures
        groups_routes(s.update(j, x)).add(route_vec(s[j].1).to_multiset()) == groups_routes(s).add(
            route_vec(x.1).to_multiset(),
        ),
    decreases s.len(),
{
    let u = s.update(j, x);
    if j == s.len() - 1 {
        assert(u.drop_last() =~= s.drop_last());
        assert(u.last() == x);
    } else {
        lemma_groups_routes_update(s.drop_last(), j, x);
        assert(u.drop_last() =~= s.drop_last().update(j, x));
        assert(u.last() == s.last());
        assert(s.drop_last()[j] == s[j]);
    }
    assert forall|r: Route| #[trigger] groups_routes(u).add(route_vec(s[j].1).to_multiset()).count(r)
        == groups_routes(s).add(route_vec(x.1).to_multiset()).count(r) by {
        let a = groups_routes(u.drop_last());
        let b = groups_routes(s.drop_last());
        if j < s.len() - 1 {
            assert(a.add(route_vec(s[j].1).to_multiset()).count(r) == b.add(
                route_vec(x.1).to_multiset(),
            ).count(r));
        }
    }
    assert(groups_routes(u).add(route_vec(s[j].1).to_multiset()) =~= groups_routes(s).add(
        route_vec(x.1).to_multiset(),
    ));
}

/// Subtree views of a sequence with one more subtree.
pub proof fn lemma_cviews_push(ns: Seq<ConditionNode>, x: ConditionNode)
    ensures
        cviews(ns.push(x)) == cviews(ns).push(cview(x)),
{
    assert(ns.push(x).drop_last() =~= ns);
}

/// Alike subtrees have the same plain values.
pub proof fn lemma_same_tree_cview(a: ConditionNode, b: ConditionNode)
    requires
        same_tree(a, b),
    ensures
        cview(a) == cview(b),
    decreases a,
{
    lemma_cviews_index(a.children@);
    lemma_cviews_index(b.children@);
    assert forall|i: int| 0 <= i < a.children@.len() implies cviews(a.children@)[i] == cviews(b.children@)[i] by {
        lemma_same_tree_cview(a.children@[i], b.children@[i]);
    }
    assert(cviews(a.children@) =~= cviews(b.children@));
}

/// Subtree views, element by element.
proof fn lemma_cviews_index(ns: Seq<ConditionNode>)
    ensures
        cviews(ns).len() == ns.len(),
        forall|i: int| 0 <= i < ns.len() ==> #[trigger] cviews(ns)[i] == cview(ns[i]),
    decreases ns.len(),
{
    if ns.len() > 0 {
        lemma_cviews_index(ns.drop_last());
        assert forall|i: int| 0 <= i < ns.len() implies #[trigger] cviews(ns)[i] == cview(ns[i]) by {
            if i < ns.len() - 1 {
                assert(ns.drop_last()[i] == ns[i]);
            }
        }
    }
}

/// Subtree views of a sequence with one subtree replaced.
proof fn lemma_cviews_update(ns: Seq<ConditionNode>, j: int, x: ConditionNode)
    requires
        0 <= j < ns.len(),
    ensures
        cviews(ns.update(j, x)) == cviews(ns).update(j, cview(x)),
{
    lemma_cviews_index(ns);
    lemma_cviews_index(ns.update(j, x));
    assert(cviews(ns.update(j, x)) =~= cviews(ns).update(j, cview(x)));
}

/// The first part under a key is found where it is.
proof fn lemma_split_index_first(s: Seq<(ConditionType, CondView)>, k: CondKey, j: int)
    requires
        0 <= j < s.len(),
        s[j].0.key() == k,
        forall|l: int| 0 <= l < j ==> #[trigger] s[l].0.key() != k,
    ensures
        split_index(s, k) == Some(j),
    decreases s.len(),
{
    let d = s.drop_last();
    if j < s.len() - 1 {
        assert forall|l: int| 0 <= l < j implies #[trigger] d[l].0.key() != k by {
            assert(d[l] == s[l]);
        }
        assert(d[j] == s[j]);
        lemma_split_index_first(d, k, j);
    } else {
        assert forall|l: int| 0 <= l < d.len() implies #[trigger] d[l].0.key() != k by {
            assert(d[l] == s[l]);
        }
        lemma_split_index_none(d, k);
    }
}

/// No part under a key: none is found.
proof fn lemma_split_index_none(s: Seq<(ConditionType, CondView)>, k: CondKey)
    requires
        forall|l: int| 0 <= l < s.len() ==> #[trigger] s[l].0.key() != k,
    ensures
        split_index(s, k) is None,
    decreases s.len(),
{
    if s.len() > 0 {
        let d = s.drop_last();
        assert forall|l: int| 0 <= l < d.len() implies #[trigger] d[l].0.key() != k by {
            assert(d[l] == s[l]);
        }
        lemma_split_index_none(d, k);
    }
}

/// The first subtree under a key is found where it is.
proof fn lemma_child_index_first(cs: Seq<CondView>, k: CondKey, j: int)
    requires
        0 <= j < cs.len(),
        cs[j].cond.key() == k,
        forall|l: int| 0 <= l < j ==> #[trigger] cs[l].cond.key() != k,
    ensures
        child_index(cs, k) == Some(j),
    decreases cs.len(),
{
    let d = cs.drop_last();
    if j < cs.len() - 1 {
        assert forall|l: int| 0 <= l < j implies #[trigger] d[l].cond.key() != k by {
            assert(d[l] == cs[l]);
        }
        assert(d[j] == cs[j]);
        lemma_child_index_first(d, k, j);
    } else {
        assert forall|l: int| 0 <= l < d.len() implies #[trigger] d[l].cond.key() != k by {
            assert(d[l] == cs[l]);
        }
        lemma_child_index_none(d, k);
    }
}

/// No subtree under a key: none is found.
proof fn lemma_child_index_none(cs: Seq<CondView>, k: CondKey)
    requires
        forall|l: int| 0 <= l < cs.len() ==> #[trigger] cs[l].cond.key() != k,
    ensures
        child_index(cs, k) is None,
    decreases cs.len(),
{
    if cs.len() > 0 {
        let d = cs.drop_last();
        assert forall|l: int| 0 <= l < d.len() implies #[trigger] d[l].cond.key() != k by {
            assert(d[l] == cs[l]);
        }
        lemma_child_index_none(d, k);
    }
}

/// An empty level, used while a node is taken out of a vector to be changed.
fn placeholder() -> (n: ConditionNode)
    ensures
        node_routes(n) == Multiset::<Route>::empty(),
{
    let n = ConditionNode {
        condition: ConditionType::Length(0),
        children: Vec::new(),
        stored_routes: route_vec_new(),
    };
    assert(n.children@ =~= Seq::<ConditionNode>::empty());
    assert(node_routes(n) =~= Multiset::<Route>::empty());
    n
}

/// A node with a single subtree below it.
fn node_with_child(condition: ConditionType, child: ConditionNode) -> (n: ConditionNode)
    ensures
        n.condition == condition,
        node_routes(n) == node_routes(child),
        cview(n) == (CondView { cond: condition, children: seq![cview(child)], routes: seq![] }),
{
    let mut v: Vec<ConditionNode> = Vec::new();
    v.push(child);
    let n = ConditionNode { condition, children: v, stored_routes: route_vec_new() };
    proof {
        assert(v@ =~= Seq::<ConditionNode>::empty().push(child));
        lemma_nodes_routes_push(Seq::<ConditionNode>::empty(), child);
        assert(node_routes(n) =~= node_routes(child));
        lemma_cviews_push(Seq::<ConditionNode>::empty(), child);
        assert(cviews(Seq::<ConditionNode>::empty()) =~= Seq::<CondView>::empty());
        assert(cviews(v@) =~= seq![cview(child)]);
        assert(route_vec(n.stored_routes) =~= Seq::<Route>::empty());
    }
    n
}

/// A node that holds routes and nothing below.
fn node_with_routes(condition: ConditionType, routes: im::Vector<Route>) -> (n: ConditionNode)
    ensures
        n.condition == condition,
        node_routes(n) == route_vec(routes).to_multiset(),
        cview(n) == (CondView { cond: condition, children: seq![], routes: route_vec(routes) }),
{
    let n = ConditionNode { condition, children: Vec::new(), stored_routes: routes };
    assert(n.children@ =~= Seq::<ConditionNode>::empty());
    assert(cviews(n.children@) =~= Seq::<CondView>::empty());
    assert(node_routes(n) =~= route_vec(routes).to_multiset());
    n
}

/// The node with one more subtree below it.
fn add_child(n: ConditionNode, child: ConditionNode) -> (r: ConditionNode)
    ensures
        r.condition == n.condition,
        node_routes(r) == node_routes(n).add(node_routes(child)),
        cview(r) == with_child(cview(n), cview(child)),
{
    let ghost old_children = n.children@;
    let ghost old_routes = node_routes(n);
    let mut n = n;
    n.children.push(child);
    proof {
        lemma_nodes_routes_push(old_children, child);
        assert(n.children@ == old_children.push(child));
        assert(node_routes(n) =~= old_routes.add(node_routes(child)));
        lemma_cviews_push(old_children, child);
    }
    n
}

/// The node with more routes stored at it.
fn add_routes(n: ConditionNode, routes: im::Vector<Route>) -> (r: ConditionNode)
    requires
        route_vec(n.stored_routes).len() + route_vec(routes).len() <= usize::MAX,
    ensures
        r.condition == n.condition,
        node_routes(r) == node_routes(n).add(route_vec(routes).to_multiset()),
        cview(r) == with_routes(cview(n), route_vec(routes)),
{
    let ghost old_stored = route_vec(n.stored_routes);
    let mut n = n;
    route_vec_append(&mut n.stored_routes, routes);
    proof {
        vstd::seq_lib::lemma_multiset_commutative(old_stored, route_vec(routes));
        assert(node_routes(n) =~= old_stored.to_multiset().add(route_vec(routes).to_multiset()).add(
            nodes_routes(n.children@),
        ));
    }
    n
}

/// The index of the subtree under a condition equal to `c`, if there is one.
fn find_split(ret: &im::Vector<(ConditionType, ConditionNode)>, c: &ConditionType) -> (r: Option<usize>)
    ensures
        match r {
            Some(j) => j < split_vec(*ret).len() && split_vec(*ret)[j as int].0.key() == c.key() && forall|l: int|
                0 <= l < j ==> #[trigger] split_vec(*ret)[l].0.key() != c.key(),
            None => forall|j: int|
                0 <= j < split_vec(*ret).len() ==> #[trigger] split_vec(*ret)[j].0.key() != c.key(),
        },
{
    let n = split_vec_len(ret);
    let mut j: usize = 0;
    while j < n
        invariant
            j <= n,
            n == split_vec(*ret).len(),
            forall|k: int| 0 <= k < j ==> #[trigger] split_vec(*ret)[k].0.key() != c.key(),
        decreases n - j,
    {
        let e = split_vec_get(ret, j);
        if e.0 == *c {
            return Some(j);
        }
        j = j + 1;
    }
    None
}

/// The index of the subtree whose condition equals `c`, if there is one.
fn find_child(children: &im::Vector<ConditionNode>, c: &ConditionType) -> (r: Option<usize>)
    ensures
        match r {
            Some(j) => j < cnode_vec(*children).len() && cnode_vec(*children)[j as int].condition.key()
                == c.key() && forall|l: int|
                0 <= l < j ==> #[trigger] cnode_vec(*children)[l].condition.key() != c.key(),
            None => forall|j: int|
                0 <= j < cnode_vec(*children).len() ==> #[trigger] cnode_vec(*children)[j].condition.key()
                    != c.key(),
        },
{
    let n = cnode_vec_len(children);
    let mut j: usize = 0;
    while j < n
        invariant
            j <= n,
            n == cnode_vec(*children).len(),
            forall|k: int| 0 <= k < j ==> #[trigger] cnode_vec(*children)[k].condition.key() != c.key(),
        decreases n - j,
    {
        let e = cnode_vec_get(children, j);
        if e.condition == *c {
            return Some(j);
        }
        j = j + 1;
    }
    None
}

/// Files a part of a subtree under the condition `k`: into the entry under that
/// condition when there is one, else into a new entry whose node has `cond`.
fn merge_part<P: Partitioner>(
    ret: &mut im::Vector<(ConditionType, ConditionNode)>,
    k: ConditionType,
    part: ConditionNode,
    cond: &ConditionType,
)
    requires
        split_keys_distinct(split_vec(*old(ret))),
        split_fits::<P>(split_vec(*old(ret))),
        forall|r: Route| #[trigger] node_routes(part).count(r) > 0 ==> P::fits(k.key(), r),
    ensures
        split_routes(split_vec(*final(ret))) == split_routes(split_vec(*old(ret))).add(node_routes(part)),
        split_keys_distinct(split_vec(*final(ret))),
        split_fits::<P>(split_vec(*final(ret))),
        splits_view(split_vec(*final(ret))) == file_part(splits_view(split_vec(*old(ret))), k, cview(part), *cond),
{
    let ghost before = split_vec(*ret);
    let ghost bv = splits_view(before);
    let ghost pv = cview(part);
    let ghost kk = k;
    match find_split(ret, &k) {
        Some(j) => {
            let (c0, n0) = split_vec_set(ret, j, (ConditionType::Length(0), placeholder()));
            let n1 = add_child(n0, part);
            let ghost x = (c0, n1);
            split_vec_set(ret, j, (c0, n1));
            proof {
                assert forall|l: int| 0 <= l < j implies #[trigger] bv[l].0.key() != kk.key() by {
                    assert(bv[l].0 == before[l].0);
                }
                lemma_split_index_first(bv, kk.key(), j as int);
                assert(splits_view(split_vec(*ret)) =~= bv.update(j as int, (bv[j as int].0, with_child(bv[j as int].1, pv))));
            }
            proof {
                let after = split_vec(*ret);
                assert(after =~= before.update(j as int, x));
                lemma_split_routes_update(before, j as int, x);
                assert forall|r: Route| #[trigger] split_routes(after).count(r) == split_routes(before).add(
                    node_routes(part),
                ).count(r) by {
                    assert(split_routes(after).add(node_routes(before[j as int].1)).count(r)
                        == split_routes(before).add(node_routes(n1)).count(r));
                }
                assert(split_routes(after) =~= split_routes(before).add(node_routes(part)));
                assert forall|i: int, l: int| 0 <= i < l < after.len() implies #[trigger] after[i].0.key()
                    != #[trigger] after[l].0.key() by {
                    assert(before[i].0.key() != before[l].0.key());
                }
                assert forall|i: int, r: Route|
                    0 <= i < after.len() && #[trigger] node_routes(after[i].1).count(r) > 0 implies P::fits(
                    after[i].0.key(),
                    r,
                ) by {
                    if i == j {
                        if node_routes(n0).count(r) == 0 {
                            assert(node_routes(part).count(r) > 0);
                        } else {
                            assert(node_routes(before[i].1).count(r) > 0);
                        }
                    } else {
                        assert(node_routes(before[i].1).count(r) > 0);
                    }
                }
            }
        },
        None => {
            let n1 = node_with_child(cond.duplicate(), part);
            let ghost x = (k, n1);
            split_vec_push_back(ret, (k, n1));
            proof {
                assert forall|l: int| 0 <= l < bv.len() implies #[trigger] bv[l].0.key() != kk.key() by {
                    assert(bv[l].0 == before[l].0);
                }
                lemma_split_index_none(bv, kk.key());
                assert(splits_view(split_vec(*ret)) =~= bv.push((kk, CondView { cond: *cond, children: seq![pv], routes: seq![] })));
            }
            proof {
                let after = split_vec(*ret);
                lemma_split_routes_push(before, x);
                assert forall|i: int, l: int| 0 <= i < l < after.len() implies #[trigger] after[i].0.key()
                    != #[trigger] after[l].0.key() by {
                    if l < before.len() {
                        assert(before[i].0.key() != before[l].0.key());
                    } else {
                        assert(after[i] == before[i]);
                    }
                }
                assert forall|i: int, r: Route|
                    0 <= i < after.len() && #[trigger] node_routes(after[i].1).count(r) > 0 implies P::fits(
                    after[i].0.key(),
                    r,
                ) by {
                    if i < before.len() {
                        assert(after[i] == before[i]);
                    }
                }
            }
        },
    }
}

/// Files a group of routes under the condition `k`: into the entry under that
/// condition when there is one, else into a new entry whose node has `cond`.
fn merge_group<P: Partitioner>(
    ret: &mut im::Vector<(ConditionType, ConditionNode)>,
    k: ConditionType,
    routes: im::Vector<Route>,
    cond: &ConditionType,
)
    requires
        split_keys_distinct(split_vec(*old(ret))),
        split_fits::<P>(split_vec(*old(ret))),
        forall|r: Route| #[trigger] route_vec(routes).to_multiset().count(r) > 0 ==> P::fits(k.key(), r),
        split_routes(split_vec(*old(ret))).len() + route_vec(routes).len() <= usize::MAX,
    ensures
        split_routes(split_vec(*final(ret))) == split_routes(split_vec(*old(ret))).add(
            route_vec(routes).to_multiset(),
        ),
        split_keys_distinct(split_vec(*final(ret))),
        split_fits::<P>(split_vec(*final(ret))),
        splits_view(split_vec(*final(ret))) == file_group(
            splits_view(split_vec(*old(ret))),
            k,
            route_vec(routes),
            *cond,
        ),
{
    let ghost before = split_vec(*ret);
    let ghost ms = route_vec(routes).to_multiset();
    let ghost bv = splits_view(before);
    let ghost rv = route_vec(routes);
    let ghost kk = k;
    match find_split(ret, &k) {
        Some(j) => {
            proof {
                lemma_split_routes_elem(before, j as int);
            }
            let (c0, n0) = split_vec_set(ret, j, (ConditionType::Length(0), placeholder()));
            assert(route_vec(n0.stored_routes).len() <= node_routes(n0).len());
            let n1 = add_routes(n0, routes);
            let ghost x = (c0, n1);
            split_vec_set(ret, j, (c0, n1));
            proof {
                assert forall|l: int| 0 <= l < j implies #[trigger] bv[l].0.key() != kk.key() by {
                    assert(bv[l].0 == before[l].0);
                }
                lemma_split_index_first(bv, kk.key(), j as int);
                assert(splits_view(split_vec(*ret)) =~= bv.update(j as int, (bv[j as int].0, with_routes(bv[j as int].1, rv))));
            }
            proof {
                let after = split_vec(*ret);
                assert(after =~= before.update(j as int, x));
                lemma_split_routes_update(before, j as int, x);
                assert forall|r: Route| #[trigger] split_routes(after).count(r) == split_routes(before).add(
                    ms,
                ).count(r) by {
                    assert(split_routes(after).add(node_routes(before[j as int].1)).count(r)
                        == split_routes(before).add(node_routes(n1)).count(r));
                }
                assert(split_routes(after) =~= split_routes(before).add(ms));
                assert forall|i: int, l: int| 0 <= i < l < after.len() implies #[trigger] after[i].0.key()
                    != #[trigger] after[l].0.key() by {
                    assert(before[i].0.key() != before[l].0.key());
                }
                assert forall|i: int, r: Route|
                    0 <= i < after.len() && #[trigger] node_routes(after[i].1).count(r) > 0 implies P::fits(
                    after[i].0.key(),
                    r,
                ) by {
                    if i == j {
                        if node_routes(n0).count(r) == 0 {
                            assert(ms.count(r) > 0);
                        } else {
                            assert(node_routes(before[i].1).count(r) > 0);
                        }
                    } else {
                        assert(node_routes(before[i].1).count(r) > 0);
                    }
                }
            }
        },
        None => {
            let n1 = node_with_routes(cond.duplicate(), routes);
            let ghost x = (k, n1);
            split_vec_push_back(ret, (k, n1));
            proof {
                assert forall|l: int| 0 <= l < bv.len() implies #[trigger] bv[l].0.key() != kk.key() by {
                    assert(bv[l].0 == before[l].0);
                }
                lemma_split_index_none(bv, kk.key());
                assert(splits_view(split_vec(*ret)) =~= bv.push((kk, CondView { cond: *cond, children: seq![], routes: rv })));
            }
            proof {
                let after = split_vec(*ret);
                lemma_split_routes_push(before, x);
                assert forall|i: int, l: int| 0 <= i < l < after.len() implies #[trigger] after[i].0.key()
                    != #[trigger] after[l].0.key() by {
                    if l < before.len() {
                        assert(before[i].0.key() != before[l].0.key());
                    } else {
                        assert(after[i] == before[i]);
                    }
                }
                assert forall|i: int, r: Route|
                    0 <= i < after.len() && #[trigger] node_routes(after[i].1).count(r) > 0 implies P::fits(
                    after[i].0.key(),
                    r,
                ) by {
                    if i < before.len() {
                        assert(after[i] == before[i]);
                    }
                }
            }
        },
    }
}

/// Files a part of a subtree under the root level `k`: below the root child whose
/// condition equals `k` when there is one, else below a new root child for `k`.
fn merge_part_at_root<P: Partitioner>(children: &mut im::Vector<ConditionNode>, k: ConditionType, part: ConditionNode)
    requires
        children_keys_distinct(cnode_vec(*old(children))),
        children_fit::<P>(cnode_vec(*old(children))),
        forall|r: Route| #[trigger] node_routes(part).count(r) > 0 ==> P::fits(k.key(), r),
    ensures
        nodes_routes(cnode_vec(*final(children))) == nodes_routes(cnode_vec(*old(children))).add(
            node_routes(part),
        ),
        children_keys_distinct(cnode_vec(*final(children))),
        children_fit::<P>(cnode_vec(*final(children))),
        cviews(cnode_vec(*final(children))) == root_part(cviews(cnode_vec(*old(children))), k, cview(part)),
{
    let ghost before = cnode_vec(*children);
    let ghost bv = cviews(before);
    let ghost pv = cview(part);
    let ghost kk = k;
    proof {
        lemma_cviews_index(before);
    }
    match find_child(children, &k) {
        Some(j) => {
            let n0 = cnode_vec_set(children, j, placeholder());
            let n1 = add_child(n0, part);
            let ghost x = n1;
            cnode_vec_set(children, j, n1);
            proof {
                assert forall|l: int| 0 <= l < j implies #[trigger] bv[l].cond.key() != kk.key() by {
                    assert(bv[l] == cview(before[l]));
                }
                assert(bv[j as int] == cview(before[j as int]));
                lemma_child_index_first(bv, kk.key(), j as int);
                lemma_cviews_update(before, j as int, n1);
                assert(cnode_vec(*children) =~= before.update(j as int, n1));
            }
            proof {
                let after = cnode_vec(*children);
                assert(after =~= before.update(j as int, x));
                lemma_nodes_routes_update(before, j as int, x);
                assert forall|r: Route| #[trigger] nodes_routes(after).count(r) == nodes_routes(before).add(
                    node_routes(part),
                ).count(r) by {
                    assert(nodes_routes(after).add(node_routes(before[j as int])).count(r)
                        == nodes_routes(before).add(node_routes(n1)).count(r));
                }
                assert(nodes_routes(after) =~= nodes_routes(before).add(node_routes(part)));
                assert forall|i: int, l: int| 0 <= i < l < after.len() implies #[trigger] after[i].condition.key()
                    != #[trigger] after[l].condition.key() by {
                    assert(before[i].condition.key() != before[l].condition.key());
                }
                assert forall|i: int, r: Route|
                    0 <= i < after.len() && #[trigger] node_routes(after[i]).count(r) > 0 implies P::fits(
                    after[i].condition.key(),
                    r,
                ) by {
                    if i == j {
                        if node_routes(n0).count(r) == 0 {
                            assert(node_routes(part).count(r) > 0);
                        } else {
                            assert(node_routes(before[i]).count(r) > 0);
                        }
                    } else {
                        assert(node_routes(before[i]).count(r) > 0);
                    }
                }
            }
        },
        None => {
            let n1 = node_with_child(k, part);
            cnode_vec_push_back(children, n1);
            proof {
                assert forall|l: int| 0 <= l < bv.len() implies #[trigger] bv[l].cond.key() != kk.key() by {
                    assert(bv[l] == cview(before[l]));
                }
                lemma_child_index_none(bv, kk.key());
                lemma_cviews_push(before, n1);
            }
            proof {
                let after = cnode_vec(*children);
                lemma_nodes_routes_push(before, n1);
                assert forall|i: int, l: int| 0 <= i < l < after.len() implies #[trigger] after[i].condition.key()
                    != #[trigger] after[l].condition.key() by {
                    if l < before.len() {
                        assert(before[i].condition.key() != before[l].condition.key());
                    } else {
                        assert(after[i] == before[i]);
                    }
                }
                assert forall|i: int, r: Route|
                    0 <= i < after.len() && #[trigger] node_routes(after[i]).count(r) > 0 implies P::fits(
                    after[i].condition.key(),
                    r,
                ) by {
                    if i < before.len() {
                        assert(after[i] == before[i]);
                    }
                }
            }
        },
    }
}

/// Files a group of routes at the root level `k`: into the root child whose
/// condition equals `k` when there is one, else into a new root child for `k`.
fn merge_group_at_root<P: Partitioner>(
    children: &mut im::Vector<ConditionNode>,
    k: ConditionType,
    routes: im::Vector<Route>,
)
    requires
        children_keys_distinct(cnode_vec(*old(children))),
        children_fit::<P>(cnode_vec(*old(children))),
        forall|r: Route| #[trigger] route_vec(routes).to_multiset().count(r) > 0 ==> P::fits(k.key(), r),
        nodes_routes(cnode_vec(*old(children))).len() + route_vec(routes).len() <= usize::MAX,
    ensures
        nodes_routes(cnode_vec(*final(children))) == nodes_routes(cnode_vec(*old(children))).add(
            route_vec(routes).to_multiset(),
        ),
        children_keys_distinct(cnode_vec(*final(children))),
        children_fit::<P>(cnode_vec(*final(children))),
        cviews(cnode_vec(*final(children))) == root_group(cviews(cnode_vec(*old(children))), k, route_vec(routes)),
{
    let ghost before = cnode_vec(*children);
    let ghost ms = route_vec(routes).to_multiset();
    let ghost bv = cviews(before);
    let ghost rv = route_vec(routes);
    let ghost kk = k;
    proof {
        lemma_cviews_index(before);
    }
    match find_child(children, &k) {
        Some(j) => {
            proof {
                lemma_nodes_routes_elem(before, j as int, arbitrary());
            }
            let n0 = cnode_vec_set(children, j, placeholder());
            assert(route_vec(n0.stored_routes).len() <= node_routes(n0).len());
            let n1 = add_routes(n0, routes);
            let ghost x = n1;
            cnode_vec_set(children, j, n1);
            proof {
                assert forall|l: int| 0 <= l < j implies #[trigger] bv[l].cond.key() != kk.key() by {
                    assert(bv[l] == cview(before[l]));
                }
                assert(bv[j as int] == cview(before[j as int]));
                lemma_child_index_first(bv, kk.key(), j as int);
                lemma_cviews_update(before, j as int, n1);
                assert(cnode_vec(*children) =~= before.update(j as int, n1));
            }
            proof {
                let after = cnode_vec(*children);
                assert(after =~= before.update(j as int, x));
                lemma_nodes_routes_update(before, j as int, x);
                assert forall|r: Route| #[trigger] nodes_routes(after).count(r) == nodes_routes(before).add(
                    ms,
                ).count(r) by {
                    assert(nodes_routes(after).add(node_routes(before[j as int])).count(r)
                        == nodes_routes(before).add(node_routes(n1)).count(r));
                }
                assert(nodes_routes(after) =~= nodes_routes(before).add(ms));
                assert forall|i: int, l: int| 0 <= i < l < after.len() implies #[trigger] after[i].condition.key()
                    != #[trigger] after[l].condition.key() by {
                    assert(before[i].condition.key() != before[l].condition.key());
                }
                assert forall|i: int, r: Route|
                    0 <= i < after.len() && #[trigger] node_routes(after[i]).count(r) > 0 implies P::fits(
                    after[i].condition.key(),
                    r,
                ) by {
                    if i == j {
                        if node_routes(n0).count(r) == 0 {
                            assert(ms.count(r) > 0);
                        } else {
                            assert(node_routes(before[i]).count(r) > 0);
                        }
                    } else {
                        assert(node_routes(before[i]).count(r) > 0);
                    }
                }
            }
        },
        None => {
            let n1 = node_with_routes(k, routes);
            cnode_vec_push_back(children, n1);
            proof {
                assert forall|l: int| 0 <= l < bv.len() implies #[trigger] bv[l].cond.key() != kk.key() by {
                    assert(bv[l] == cview(before[l]));
                }
                lemma_child_index_none(bv, kk.key());
                lemma_cviews_push(before, n1);
            }
            proof {
                let after = cnode_vec(*children);
                lemma_nodes_routes_push(before, n1);
                assert forall|i: int, l: int| 0 <= i < l < after.len() implies #[trigger] after[i].condition.key()
                    != #[trigger] after[l].condition.key() by {
                    if l < before.len() {
                        assert(before[i].condition.key() != before[l].condition.key());
                    } else {
                        assert(after[i] == before[i]);
                    }
                }
                assert forall|i: int, r: Route|
                    0 <= i < after.len() && #[trigger] node_routes(after[i]).count(r) > 0 implies P::fits(
                    after[i].condition.key(),
                    r,
                ) by {
                    if i < before.len() {
                        assert(after[i] == before[i]);
                    }
                }
            }
        },
    }
}

impl ConditionTree {
    /// A tree whose routes are all still unpartitioned at the root.
    pub fn new(r: im::Vector<Route>) -> (t: ConditionTree)
        ensures
            t@.children.len() == 0,
            t@.stored == route_vec(r),
    {
        ConditionTree { children: cnode_vec_new(), stored_routes: r }
    }

    /// The routes not yet partitioned.
    pub fn get_routes(&self) -> (r: &im::Vector<Route>)
        ensures
            route_vec(*r) == self@.stored,
    {
        &self.stored_routes
    }

    /// The subtrees below the root.
    pub fn get_children(&self) -> (r: &im::Vector<ConditionNode>)
        ensures
            cnode_vec(*r) == self@.children,
    {
        &self.children
    }

    /// Moves the subtrees out, in order, leaving none.
    pub(crate) fn take_children(&mut self) -> (r: Vec<ConditionNode>)
        ensures
            r@ == old(self)@.children,
            final(self)@ == (TreeView { children: Seq::<ConditionNode>::empty(), ..old(self)@ }),
    {
        let ghost cs = self@.children;
        let mut out: Vec<ConditionNode> = Vec::new();
        let n = cnode_vec_len(&self.children);
        let mut i: usize = 0;
        while i < n
            invariant
                i <= n,
                n == cs.len(),
                out@ == cs.take(i as int),
                cnode_vec(self.children) == cs.skip(i as int),
                route_vec(self.stored_routes) == old(self)@.stored,
            decreases n - i,
        {
            match cnode_vec_pop_front(&mut self.children) {
                Some(c) => {
                    out.push(c);
                },
                None => {},
            }
            assert(out@ =~= cs.take(i + 1));
            assert(cnode_vec(self.children) =~= cs.skip(i + 1));
            i = i + 1;
        }
        assert(out@ =~= cs);
        assert(self@.children =~= Seq::<ConditionNode>::empty());
        out
    }

    /// Puts subtrees back below the root, in order, after those there.
    pub(crate) fn restore_children(&mut self, cs: Vec<ConditionNode>)
        ensures
            final(self)@ == (TreeView { children: old(self)@.children + cs@, ..old(self)@ }),
    {
        let ghost start = self@.children;
        let ghost all = cs@;
        let mut rest = cs;
        let mut k: usize = 0;
        let n = rest.len();
        while rest.len() > 0
            invariant
                k + rest@.len() == n,
                n == all.len(),
                rest@ == all.skip(k as int),
                cnode_vec(self.children) == start + all.take(k as int),
                route_vec(self.stored_routes) == old(self)@.stored,
            decreases rest@.len(),
        {
            let c = rest.remove(0);
            cnode_vec_push_back(&mut self.children, c);
            assert(all.take(k + 1) =~= all.take(k as int).push(c));
            assert(rest@ =~= all.skip(k + 1));
            k = k + 1;
        }
        assert(all.take(k as int) =~= all);
    }

    /// The unpartitioned routes, to change in place.
    pub fn get_routes_mut(&mut self) -> (r: &mut im::Vector<Route>)
        ensures
            route_vec(*r) == old(self)@.stored,
            final(self)@ == (TreeView { stored: route_vec(*final(r)), ..old(self)@ }),
    {
        &mut self.stored_routes
    }

    /// The subtrees below the root, to change in place.
    pub fn get_children_mut(&mut self) -> (r: &mut im::Vector<ConditionNode>)
        ensures
            cnode_vec(*r) == old(self)@.children,
            final(self)@ == (TreeView { children: cnode_vec(*final(r)), ..old(self)@ }),
    {
        &mut self.children
    }

    /// Splits one subtree by the pass's conditions: for each condition that some of
    /// its routes fall under, a copy of the subtree holding just those routes.
    fn partition_node<P: Partitioner>(node: &ConditionNode, pass: &mut P) -> (ret: im::Vector<
        (ConditionType, ConditionNode),
    >)
        requires
            node_routes(*node).len() <= usize::MAX,
        ensures
            split_routes(split_vec(ret)) == node_routes(*node),
            split_keys_distinct(split_vec(ret)),
            split_fits::<P>(split_vec(ret)),
            splits_view(split_vec(ret)) == split_of::<P>(cview(*node)),
        decreases node,
    {
        let mut ret = split_vec_new();
        let mut i: usize = 0;
        proof {
            assert(node.children@.take(0) =~= Seq::<ConditionNode>::empty());
            assert(splits_view(split_vec(ret)) =~= Seq::<(ConditionType, CondView)>::empty());
            assert(cviews(node.children@.take(0)) =~= Seq::<CondView>::empty());
        }
        while i < node.children.len()
            invariant
                i <= node.children.len(),
                node_routes(*node).len() <= usize::MAX,
                split_routes(split_vec(ret)) == nodes_routes(node.children@.take(i as int)),
                split_keys_distinct(split_vec(ret)),
                split_fits::<P>(split_vec(ret)),
                splits_view(split_vec(ret)) == split_children::<P>(cviews(node.children@.take(i as int)), node.condition),
            decreases node.children.len() - i,
        {
            let child = &node.children[i];
            proof {
                lemma_nodes_routes_elem(node.children@, i as int, arbitrary());
                assert(node.children@[i as int] == *child);
            }
            let mut parts = Self::partition_node(child, pass);
            let ghost parts0 = split_vec(parts);
            let ghost ret0 = split_vec(ret);
            let ghost pv0 = splits_view(parts0);
            let n_parts = split_vec_len(&parts);
            let mut k: usize = 0;
            proof {
                assert(parts0.take(0) =~= Seq::<(ConditionType, ConditionNode)>::empty());
                assert(pv0.take(0) =~= Seq::<(ConditionType, CondView)>::empty());
            }
            while k < n_parts
                invariant
                    k <= n_parts,
                    n_parts == parts0.len(),
                    split_vec(parts).len() == n_parts,
                    forall|idx: int| k <= idx < n_parts ==> #[trigger] split_vec(parts)[idx] == parts0[idx],
                    split_fits::<P>(parts0),
                    split_routes(split_vec(ret)) == split_routes(ret0).add(split_routes(parts0.take(k as int))),
                    split_keys_distinct(split_vec(ret)),
                    split_fits::<P>(split_vec(ret)),
                    pv0 == splits_view(parts0),
                    splits_view(split_vec(ret)) == file_parts(splits_view(ret0), pv0.take(k as int), node.condition),
                decreases n_parts - k,
            {
                let (pk, pn) = split_vec_set(&mut parts, k, (ConditionType::Length(0), placeholder()));
                let ghost x = (pk, pn);
                assert(x == parts0[k as int]);
                assert forall|r: Route| #[trigger] node_routes(pn).count(r) > 0 implies P::fits(pk.key(), r) by {
                    assert(node_routes(parts0[k as int].1).count(r) > 0);
                }
                let ghost before = split_vec(ret);
                merge_part::<P>(&mut ret, pk, pn, &node.condition);
                proof {
                    assert(pv0.take(k + 1).drop_last() =~= pv0.take(k as int));
                    assert(pv0[k as int] == (pk, cview(pn)));
                    assert(parts0.take(k + 1).drop_last() =~= parts0.take(k as int));
                    lemma_split_routes_push(parts0.take(k as int), x);
                    assert(parts0.take(k + 1) =~= parts0.take(k as int).push(x));
                    assert(split_routes(split_vec(ret)) =~= split_routes(ret0).add(
                        split_routes(parts0.take(k + 1)),
                    ));
                }
                k = k + 1;
            }
            proof {
                assert(parts0.take(n_parts as int) =~= parts0);
                assert(pv0.take(n_parts as int) =~= pv0);
                assert(node.children@.take(i + 1) =~= node.children@.take(i as int).push(*child));
                lemma_nodes_routes_push(node.children@.take(i as int), *child);
                lemma_cviews_push(node.children@.take(i as int), *child);
                let cvs = cviews(node.children@.take(i as int));
                assert(cvs.push(cview(*child)).drop_last() =~= cvs);
            }
            i = i + 1;
        }
        proof {
            assert(node.children@.take(i as int) =~= node.children@);
        }
        let ghost ret1 = split_vec(ret);
        let ghost stored_ms = route_vec(node.stored_routes).to_multiset();
        let mut groups = pass.partition(route_vec_clone(&node.stored_routes));
        let ghost g0 = group_vec(groups);
        let ghost gv0 = groups_view(g0);
        let n_groups = group_vec_len(&groups);
        let mut k: usize = 0;
        proof {
            assert(g0.take(0) =~= Seq::<(ConditionType, im::Vector<Route>)>::empty());
            assert(gv0.take(0) =~= Seq::<(ConditionType, Seq<Route>)>::empty());
            assert(node_routes(*node) == stored_ms.add(nodes_routes(node.children@)));
        }
        while k < n_groups
            invariant
                k <= n_groups,
                n_groups == g0.len(),
                group_vec(groups).len() == n_groups,
                forall|idx: int| k <= idx < n_groups ==> #[trigger] group_vec(groups)[idx] == g0[idx],
                stored_ms == groups_routes(g0),
                forall|i: int, r: Route|
                    0 <= i < g0.len() && #[trigger] route_vec(g0[i].1).to_multiset().count(r) > 0
                        ==> P::fits(g0[i].0.key(), r),
                split_routes(ret1) == nodes_routes(node.children@),
                node_routes(*node) == stored_ms.add(nodes_routes(node.children@)),
                node_routes(*node).len() <= usize::MAX,
                split_routes(split_vec(ret)) == split_routes(ret1).add(groups_routes(g0.take(k as int))),
                split_keys_distinct(split_vec(ret)),
                split_fits::<P>(split_vec(ret)),
                gv0 == groups_view(g0),
                gv0 == P::groups(route_vec(node.stored_routes)),
                splits_view(ret1) == split_children::<P>(cviews(node.children@), node.condition),
                splits_view(split_vec(ret)) == file_groups(splits_view(ret1), gv0.take(k as int), node.condition),
            decreases n_groups - k,
        {
            let (gk, gv) = group_vec_set(&mut groups, k, (ConditionType::Length(0), route_vec_new()));
            let ghost x = (gk, gv);
            assert(x == g0[k as int]);
            proof {
                assert(g0.take(k + 1) =~= g0.take(k as int).push(x));
                lemma_groups_routes_push(g0.take(k as int), x);
                lemma_groups_routes_prefix(g0, k + 1);
                assert(split_routes(split_vec(ret)).len() + route_vec(gv).len() <= node_routes(*node).len());
            }
            assert forall|r: Route| #[trigger] route_vec(gv).to_multiset().count(r) > 0 implies P::fits(
                gk.key(),
                r,
            ) by {
                assert(route_vec(g0[k as int].1).to_multiset().count(r) > 0);
            }
            merge_group::<P>(&mut ret, gk, gv, &node.condition);
            proof {
                assert(split_routes(split_vec(ret)) =~= split_routes(ret1).add(groups_routes(g0.take(k + 1))));
                assert(gv0.take(k + 1).drop_last() =~= gv0.take(k as int));
                assert(gv0[k as int] == (gk, route_vec(gv)));
            }
            k = k + 1;
        }
        proof {
            assert(g0.take(n_groups as int) =~= g0);
            assert(gv0.take(n_groups as int) =~= gv0);
            assert(split_routes(split_vec(ret)) =~= node_routes(*node));
        }
        ret
    }

    /// Inserts a level of the pass's conditions at the root: every root subtree is
    /// split by the pass and its parts filed below root children, one per condition;
    /// the unpartitioned routes are grouped by the pass into the root children too.
    pub fn insert_root_condition<P: Partitioner>(&mut self, pass: &mut P)
        requires
            tree_routes(old(self)@).len() <= usize::MAX,
        ensures
            tree_routes(final(self)@) == tree_routes(old(self)@),
            final(self)@.stored.len() == 0,
            children_keys_distinct(final(self)@.children),
            children_fit::<P>(final(self)@.children),
            cviews(final(self)@.children) == inserted::<P>(cviews(old(self)@.children), old(self)@.stored),
    {
        let ghost old_children = cnode_vec(self.children);
        let ghost stored_ms = route_vec(self.stored_routes).to_multiset();
        let mut new_children = cnode_vec_new();
        let n = cnode_vec_len(&self.children);
        let mut i: usize = 0;
        proof {
            assert(old_children.take(0) =~= Seq::<ConditionNode>::empty());
            assert(nodes_routes(cnode_vec(new_children)) =~= Multiset::<Route>::empty());
            assert(cviews(cnode_vec(new_children)) =~= Seq::<CondView>::empty());
            assert(cviews(old_children.take(0)) =~= Seq::<CondView>::empty());
        }
        while i < n
            invariant
                i <= n,
                n == old_children.len(),
                old_children == cnode_vec(self.children),
                stored_ms == route_vec(self.stored_routes).to_multiset(),
                tree_routes(self@).len() <= usize::MAX,
                tree_routes(self@) == stored_ms.add(nodes_routes(old_children)),
                nodes_routes(cnode_vec(new_children)) == nodes_routes(old_children.take(i as int)),
                children_keys_distinct(cnode_vec(new_children)),
                children_fit::<P>(cnode_vec(new_children)),
                cviews(cnode_vec(new_children)) == root_children::<P>(cviews(old_children.take(i as int))),
            decreases n - i,
        {
            let c = cnode_vec_get(&self.children, i);
            proof {
                lemma_nodes_routes_elem(old_children, i as int, arbitrary());
            }
            let mut parts = Self::partition_node(c, pass);
            let ghost parts0 = split_vec(parts);
            let ghost acc0 = nodes_routes(cnode_vec(new_children));
            let ghost accv = cviews(cnode_vec(new_children));
            let ghost pv0 = splits_view(parts0);
            let n_parts = split_vec_len(&parts);
            let mut k: usize = 0;
            proof {
                assert(parts0.take(0) =~= Seq::<(ConditionType, ConditionNode)>::empty());
                assert(pv0.take(0) =~= Seq::<(ConditionType, CondView)>::empty());
            }
            while k < n_parts
                invariant
                    k <= n_parts,
                    n_parts == parts0.len(),
                    split_vec(parts).len() == n_parts,
                    forall|idx: int| k <= idx < n_parts ==> #[trigger] split_vec(parts)[idx] == parts0[idx],
                    split_fits::<P>(parts0),
                    nodes_routes(cnode_vec(new_children)) == acc0.add(split_routes(parts0.take(k as int))),
                    children_keys_distinct(cnode_vec(new_children)),
                    children_fit::<P>(cnode_vec(new_children)),
                    pv0 == splits_view(parts0),
                    cviews(cnode_vec(new_children)) == root_parts(accv, pv0.take(k as int)),
                decreases n_parts - k,
            {
                let (pk, pn) = split_vec_set(&mut parts, k, (ConditionType::Length(0), placeholder()));
                let ghost x = (pk, pn);
                assert(x == parts0[k as int]);
                assert forall|r: Route| #[trigger] node_routes(pn).count(r) > 0 implies P::fits(pk.key(), r) by {
                    assert(node_routes(parts0[k as int].1).count(r) > 0);
                }
                merge_part_at_root::<P>(&mut new_children, pk, pn);
                proof {
                    assert(pv0.take(k + 1).drop_last() =~= pv0.take(k as int));
                    assert(pv0[k as int] == (pk, cview(pn)));
                    lemma_split_routes_push(parts0.take(k as int), x);
                    assert(parts0.take(k + 1) =~= parts0.take(k as int).push(x));
                    assert(nodes_routes(cnode_vec(new_children)) =~= acc0.add(split_routes(parts0.take(k + 1))));
                }
                k = k + 1;
            }
            proof {
                assert(parts0.take(n_parts as int) =~= parts0);
                assert(pv0.take(n_parts as int) =~= pv0);
                assert(old_children.take(i + 1) =~= old_children.take(i as int).push(*c));
                lemma_nodes_routes_push(old_children.take(i as int), *c);
                lemma_cviews_push(old_children.take(i as int), *c);
                let cvs = cviews(old_children.take(i as int));
                assert(cvs.push(cview(*c)).drop_last() =~= cvs);
            }
            i = i + 1;
        }
        proof {
            assert(old_children.take(n as int) =~= old_children);
        }
        let ghost acc1 = nodes_routes(cnode_vec(new_children));
        let ghost acc1v = cviews(cnode_vec(new_children));
        let mut groups = pass.partition(route_vec_clone(&self.stored_routes));
        let ghost g0 = group_vec(groups);
        let ghost gv0 = groups_view(g0);
        let n_groups = group_vec_len(&groups);
        let mut k: usize = 0;
        proof {
            assert(g0.take(0) =~= Seq::<(ConditionType, im::Vector<Route>)>::empty());
            assert(gv0.take(0) =~= Seq::<(ConditionType, Seq<Route>)>::empty());
        }
        while k < n_groups
            invariant
                k <= n_groups,
                n_groups == g0.len(),
                group_vec(groups).len() == n_groups,
                forall|idx: int| k <= idx < n_groups ==> #[trigger] group_vec(groups)[idx] == g0[idx],
                stored_ms == groups_routes(g0),
                forall|i: int, r: Route|
                    0 <= i < g0.len() && #[trigger] route_vec(g0[i].1).to_multiset().count(r) > 0
                        ==> P::fits(g0[i].0.key(), r),
                acc1 == nodes_routes(old_children),
                tree_routes(old(self)@) == stored_ms.add(nodes_routes(old_children)),
                tree_routes(old(self)@).len() <= usize::MAX,
                nodes_routes(cnode_vec(new_children)) == acc1.add(groups_routes(g0.take(k as int))),
                children_keys_distinct(cnode_vec(new_children)),
                children_fit::<P>(cnode_vec(new_children)),
                gv0 == groups_view(g0),
                gv0 == P::groups(old(self)@.stored),
                acc1v == root_children::<P>(cviews(old(self)@.children)),
                cviews(cnode_vec(new_children)) == root_groups(acc1v, gv0.take(k as int)),
            decreases n_groups - k,
        {
            let (gk, gv) = group_vec_set(&mut groups, k, (ConditionType::Length(0), route_vec_new()));
            let ghost x = (gk, gv);
            assert(x == g0[k as int]);
            proof {
                assert(g0.take(k + 1) =~= g0.take(k as int).push(x));
                lemma_groups_routes_push(g0.take(k as int), x);
                lemma_groups_routes_prefix(g0, k + 1);
            }
            assert forall|r: Route| #[trigger] route_vec(gv).to_multiset().count(r) > 0 implies P::fits(
                gk.key(),
                r,
            ) by {
                assert(route_vec(g0[k as int].1).to_multiset().count(r) > 0);
            }
            merge_group_at_root::<P>(&mut new_children, gk, gv);
            proof {
                assert(gv0.take(k + 1).drop_last() =~= gv0.take(k as int));
                assert(gv0[k as int] == (gk, route_vec(gv)));
                assert(nodes_routes(cnode_vec(new_children)) =~= acc1.add(groups_routes(g0.take(k + 1))));
            }
            k = k + 1;
        }
        proof {
            assert(g0.take(n_groups as int) =~= g0);
            assert(gv0.take(n_groups as int) =~= gv0);
        }
        self.children = new_children;
        self.stored_routes = route_vec_new();
        proof {
            assert(tree_routes(self@) =~= tree_routes(old(self)@));
        }
    }

    /// Runs a pass made with its default value.
    pub fn run_pass_type<T: Pass + Default>(&mut self)
        requires
            tree_routes(old(self)@).len() <= usize::MAX,
        ensures
            tree_routes(final(self)@) == tree_routes(old(self)@),
            final(self)@.stored.len() == 0,
            children_keys_distinct(final(self)@.children),
            children_fit::<T>(final(self)@.children),
            cviews(final(self)@.children) == inserted::<T>(cviews(old(self)@.children), old(self)@.stored),
    {
        let mut pass = T::default();
        pass.run(self);
    }
}


/// Whether every part keeps the condition `c` as its own.
pub open spec fn parts_keep(s: Seq<(ConditionType, CondView)>, c: ConditionType) -> bool {
    forall|i: int| 0 <= i < s.len() ==> (#[trigger] s[i]).1.cond == c
}

proof fn lemma_file_parts_keep(s: Seq<(ConditionType, CondView)>, parts: Seq<(ConditionType, CondView)>, c: ConditionType)
    requires
        parts_keep(s, c),
    ensures
        parts_keep(file_parts(s, parts, c), c),
    decreases parts.len(),
{
    if parts.len() > 0 {
        lemma_file_parts_keep(s, parts.drop_last(), c);
        let prev = file_parts(s, parts.drop_last(), c);
        let out = file_parts(s, parts, c);
        assert forall|i: int| 0 <= i < out.len() implies (#[trigger] out[i]).1.cond == c by {
            match split_index(prev, parts.last().0.key()) {
                Some(j) => {
                    lemma_split_index_bound(prev, parts.last().0.key());
                    if i != j {
                        assert(out[i] == prev[i]);
                    }
                },
                None => {
                    if i < prev.len() {
                        assert(out[i] == prev[i]);
                    }
                },
            }
        }
    }
}

proof fn lemma_file_groups_keep(s: Seq<(ConditionType, CondView)>, gs: Seq<(ConditionType, Seq<Route>)>, c: ConditionType)
    requires
        parts_keep(s, c),
    ensures
        parts_keep(file_groups(s, gs, c), c),
    decreases gs.len(),
{
    if gs.len() > 0 {
        lemma_file_groups_keep(s, gs.drop_last(), c);
        let prev = file_groups(s, gs.drop_last(), c);
        let out = file_groups(s, gs, c);
        assert forall|i: int| 0 <= i < out.len() implies (#[trigger] out[i]).1.cond == c by {
            match split_index(prev, gs.last().0.key()) {
                Some(j) => {
                    lemma_split_index_bound(prev, gs.last().0.key());
                    if i != j {
                        assert(out[i] == prev[i]);
                    }
                },
                None => {
                    if i < prev.len() {
                        assert(out[i] == prev[i]);
                    }
                },
            }
        }
    }
}

proof fn lemma_split_index_bound(s: Seq<(ConditionType, CondView)>, k: CondKey)
    ensures
        split_index(s, k) matches Some(i) ==> 0 <= i < s.len(),
    decreases s.len(),
{
    if s.len() > 0 {
        lemma_split_index_bound(s.drop_last(), k);
    }
}

proof fn lemma_split_children_keep<P: Partitioner>(cs: Seq<CondView>, c: ConditionType)
    ensures
        parts_keep(split_children::<P>(cs, c), c),
    decreases cs.len(),
{
    if cs.len() > 0 {
        lemma_split_children_keep::<P>(cs.drop_last(), c);
        lemma_file_parts_keep(split_children::<P>(cs.drop_last(), c), split_of::<P>(cs.last()), c);
    }
}

/// A pass adds a level and replaces none: every copy of a subtree that a pass
/// makes keeps the subtree's own condition, so the conditions below the new level
/// are the old ones.
pub proof fn law_split_keeps_condition<P: Partitioner>(v: CondView)
    ensures
        parts_keep(split_of::<P>(v), v.cond),
{
    lemma_split_children_keep::<P>(v.children, v.cond);
    lemma_file_groups_keep(split_children::<P>(v.children, v.cond), P::groups(v.routes), v.cond);
}

/// Passes compose: running one pass and then another keeps every route of the
/// tree, and leaves none unpartitioned at the root.
pub proof fn law_passes_compose<P: Partitioner, Q: Partitioner>(a: TreeView, b: TreeView, c: TreeView)
    requires
        pass_applied::<P>(a, b),
        pass_applied::<Q>(b, c),
    ensures
        tree_routes(c) == tree_routes(a),
        c.stored.len() == 0,
{
}

} // verus!
