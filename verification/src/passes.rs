//! The built-in passes: partition routes by path length or by segment count.
use vstd::prelude::*;
use crate::collections::{
    group_vec, group_vec_get, group_vec_len, group_vec_new, group_vec_push_back, group_vec_set,
    route_vec, route_vec_len, route_vec_new, route_vec_pop_front, route_vec_push_back, seg_vec,
    seg_vec_len,
};
use crate::condition::{
    groups_keys_distinct, groups_routes, groups_view, lemma_groups_routes_push, lemma_groups_routes_update,
    CondKey, ConditionTree, ConditionType, Partitioner, Pass,
};
use crate::router::{path_text, Route};
use vstd::utf8::encode_utf8;

verus! {

broadcast use {vstd::seq_lib::group_to_multiset_ensures, vstd::multiset::group_multiset_axioms};

/// What a built-in pass groups routes by.
pub enum Grouping {
    /// The byte length of the path string.
    ByLength,
    /// The number of path segments.
    BySegments,
}

/// The condition a route falls under in a grouping.
pub open spec fn grouping_key(kind: Grouping, r: Route) -> CondKey {
    match kind {
        Grouping::ByLength => CondKey::Length(encode_utf8(path_text(r@.path)).len() as usize),
        Grouping::BySegments => CondKey::SegmentCount(seg_vec(r.path).len() as usize),
    }
}

/// Whether a route falls under the key in the grouping.
pub open spec fn has_key(kind: Grouping, k: CondKey) -> spec_fn(Route) -> bool {
    |r: Route| grouping_key(kind, r) == k
}

/// `out` is the stable grouping of `input` by key: one group per key that occurs,
/// in the order in which the keys first occur, each holding the routes with its key
/// in their input order.
#[verifier::opaque]
pub open spec fn grouped_by(
    kind: Grouping,
    input: Seq<Route>,
    out: Seq<(ConditionType, im::Vector<Route>)>,
) -> bool {
    &&& groups_keys_distinct(out)
    &&& forall|i: int|
        0 <= i < out.len() ==> #[trigger] route_vec(out[i].1) == input.filter(
            has_key(kind, out[i].0.key()),
        )
    &&& forall|i: int| 0 <= i < out.len() ==> route_vec(#[trigger] out[i].1).len() > 0
    &&& forall|p: int|
        0 <= p < input.len() ==> exists|i: int|
            0 <= i < out.len() && #[trigger] out[i].0.key() == grouping_key(kind, #[trigger] input[p])
    &&& forall|i: int, j: int|
        0 <= i < j < out.len() ==> exists|p: int|
            0 <= p < input.len() && grouping_key(kind, #[trigger] input[p]) == #[trigger] out[i].0.key()
                && forall|q: int| 0 <= q <= p ==> grouping_key(kind, input[q]) != #[trigger] out[j].0.key()
}

/// The condition of a route in a grouping.
pub open spec fn route_cond(kind: Grouping, r: Route) -> ConditionType {
    match kind {
        Grouping::ByLength => ConditionType::Length(encode_utf8(path_text(r@.path)).len() as usize),
        Grouping::BySegments => ConditionType::SegmentCount(seg_vec(r.path).len() as usize),
    }
}

/// The index of the first group under a condition with key `k`, if any.
pub open spec fn group_index(gs: Seq<(ConditionType, Seq<Route>)>, k: CondKey) -> Option<int>
    decreases gs.len(),
{
    if gs.len() == 0 {
        None
    } else {
        match group_index(gs.drop_last(), k) {
            Some(i) => Some(i),
            None => if gs.last().0.key() == k {
                Some(gs.len() - 1)
            } else {
                None
            },
        }
    }
}

/// The groups of routes, built route by route: a route joins the group of its
/// condition, or starts a new group after the others.
pub open spec fn group_fold(kind: Grouping, rs: Seq<Route>) -> Seq<(ConditionType, Seq<Route>)>
    decreases rs.len(),
{
    if rs.len() == 0 {
        seq![]
    } else {
        let prev = group_fold(kind, rs.drop_last());
        let r = rs.last();
        let c = route_cond(kind, r);
        match group_index(prev, c.key()) {
            Some(k) => prev.update(k, (prev[k].0, prev[k].1.push(r))),
            None => prev.push((c, seq![r])),
        }
    }
}

/// The first group under a key is at the index where the key is found, when keys
/// are distinct.
proof fn lemma_group_index(gs: Seq<(ConditionType, Seq<Route>)>, k: CondKey, j: int)
    requires
        forall|a: int, b: int| 0 <= a < b < gs.len() ==> #[trigger] gs[a].0.key() != #[trigger] gs[b].0.key(),
        0 <= j < gs.len(),
        gs[j].0.key() == k,
    ensures
        group_index(gs, k) == Some(j),
    decreases gs.len(),
{
    if j < gs.len() - 1 {
        let d = gs.drop_last();
        assert forall|a: int, b: int| 0 <= a < b < d.len() implies #[trigger] d[a].0.key() != #[trigger] d[b].0.key() by {
            assert(d[a] == gs[a]);
            assert(d[b] == gs[b]);
        }
        assert(d[j] == gs[j]);
        lemma_group_index(d, k, j);
    } else {
        lemma_group_index_none(gs.drop_last(), k);
    }
}

/// No group under a key: none is found.
proof fn lemma_group_index_none(gs: Seq<(ConditionType, Seq<Route>)>, k: CondKey)
    requires
        forall|a: int| 0 <= a < gs.len() ==> #[trigger] gs[a].0.key() != k,
    ensures
        group_index(gs, k) is None,
    decreases gs.len(),
{
    if gs.len() > 0 {
        let d = gs.drop_last();
        assert forall|a: int| 0 <= a < d.len() implies #[trigger] d[a].0.key() != k by {
            assert(d[a] == gs[a]);
        }
        lemma_group_index_none(d, k);
    }
}

/// The condition of a route in a grouping.
pub fn route_condition(kind: &Grouping, r: &Route) -> (c: ConditionType)
    ensures
        c == route_cond(*kind, *r),
        c.key() == grouping_key(*kind, *r),
        c is Length || c is SegmentCount,
{
    match kind {
        Grouping::ByLength => {
            let p = r.get_path_str();
            ConditionType::Length(p.as_str().len())
        },
        Grouping::BySegments => ConditionType::SegmentCount(seg_vec_len(&r.path)),
    }
}

/// The index of the group under a condition equal to `c`, if there is one.
pub fn find_group(groups: &im::Vector<(ConditionType, im::Vector<Route>)>, c: &ConditionType) -> (r:
    Option<usize>)
    ensures
        match r {
            Some(j) => j < group_vec(*groups).len() && group_vec(*groups)[j as int].0.key() == c.key(),
            None => forall|j: int|
                0 <= j < group_vec(*groups).len() ==> #[trigger] group_vec(*groups)[j].0.key()
                    != c.key(),
        },
{
    let n = group_vec_len(groups);
    let mut j: usize = 0;
    while j < n
        invariant
            j <= n,
            n == group_vec(*groups).len(),
            forall|k: int| 0 <= k < j ==> #[trigger] group_vec(*groups)[k].0.key() != c.key(),
        decreases n - j,
    {
        let g = group_vec_get(groups, j);
        if g.0 == *c {
            return Some(j);
        }
        j = j + 1;
    }
    None
}

/// Groups routes by key, keeping the order of first occurrence and the input order
/// within each group.
pub fn group_routes(routes: im::Vector<Route>, kind: Grouping) -> (out: im::Vector<
    (ConditionType, im::Vector<Route>),
>)
    ensures
        grouped_by(kind, route_vec(routes), group_vec(out)),
        groups_view(group_vec(out)) == group_fold(kind, route_vec(routes)),
        route_vec(routes).to_multiset() == groups_routes(group_vec(out)),
        forall|i: int| 0 <= i < group_vec(out).len() ==> (#[trigger] group_vec(out)[i]).0 is Length
            || group_vec(out)[i].0 is SegmentCount,
{
    let ghost input = route_vec(routes);
    let mut routes = routes;
    let mut partitions = group_vec_new();
    proof {
        reveal(grouped_by);
        assert(input.take(0) =~= Seq::<Route>::empty());
        assert(groups_view(group_vec(partitions)) =~= Seq::<(ConditionType, Seq<Route>)>::empty());
    }
    let total = route_vec_len(&routes);
    let mut i: usize = 0;
    while route_vec_len(&routes) > 0
        invariant
            i <= input.len(),
            input.len() == total,
            route_vec(routes) == input.skip(i as int),
            grouped_by(kind, input.take(i as int), group_vec(partitions)),
            groups_view(group_vec(partitions)) == group_fold(kind, input.take(i as int)),
            input.take(i as int).to_multiset() == groups_routes(group_vec(partitions)),
            forall|g: int|
                0 <= g < group_vec(partitions).len() ==> (#[trigger] group_vec(partitions)[g]).0 is Length
                    || group_vec(partitions)[g].0 is SegmentCount,
        decreases route_vec(routes).len(),
    {
        let ghost before = group_vec(partitions);
        let ghost prefix = input.take(i as int);
        let r = route_vec_pop_front(&mut routes).unwrap();
        assert(r == input[i as int]);
        assert(input.take(i + 1) =~= prefix.push(r));
        assert(route_vec(routes) =~= input.skip(i + 1));
        let c = route_condition(&kind, &r);
        match find_group(&partitions, &c) {
            Some(j) => {
                let (c0, mut v) = group_vec_set(
                    &mut partitions,
                    j,
                    (ConditionType::Length(0), route_vec_new()),
                );
                route_vec_push_back(&mut v, r);
                group_vec_set(&mut partitions, j, (c0, v));
                proof {
                    let after = group_vec(partitions);
                    assert(after =~= before.update(j as int, (c0, v)));
                    let bv = groups_view(before);
                    reveal(grouped_by);
                    assert forall|a: int, b: int| 0 <= a < b < bv.len() implies #[trigger] bv[a].0.key()
                        != #[trigger] bv[b].0.key() by {
                        assert(bv[a].0 == before[a].0);
                        assert(bv[b].0 == before[b].0);
                    }
                    assert(bv[j as int].0 == before[j as int].0);
                    lemma_group_index(bv, c.key(), j as int);
                    assert(input.take(i + 1).drop_last() =~= prefix);
                    assert(route_vec(v) =~= route_vec(before[j as int].1).push(r));
                    assert(groups_view(after) =~= bv.update(j as int, (bv[j as int].0, bv[j as int].1.push(r))));
                    lemma_group_existing(kind, prefix, before, j as int, r, c0, v);
                    lemma_groups_routes_update(before, j as int, (c0, v));
                    assert(route_vec(v).to_multiset() =~= route_vec(before[j as int].1).to_multiset().insert(r));
                    assert forall|x: Route| #[trigger] groups_routes(after).count(x) == groups_routes(
                        before,
                    ).insert(r).count(x) by {
                        assert(groups_routes(after).add(route_vec(before[j as int].1).to_multiset()).count(x)
                            == groups_routes(before).add(route_vec(v).to_multiset()).count(x));
                    }
                    assert(groups_routes(after) =~= groups_routes(before).insert(r));
                }
            },
            None => {
                let mut v = route_vec_new();
                route_vec_push_back(&mut v, r);
                let ghost pair = (c, v);
                group_vec_push_back(&mut partitions, (c, v));
                proof {
                    assert(route_vec(v) =~= seq![r]);
                    let bv = groups_view(before);
                    assert forall|a: int| 0 <= a < bv.len() implies #[trigger] bv[a].0.key() != c.key() by {
                        assert(bv[a].0 == before[a].0);
                    }
                    lemma_group_index_none(bv, c.key());
                    assert(input.take(i + 1).drop_last() =~= prefix);
                    assert(groups_view(group_vec(partitions)) =~= bv.push((c, seq![r])));
                    lemma_group_new(kind, prefix, before, r, c, v);
                    lemma_groups_routes_push(before, pair);
                    assert(route_vec(v).to_multiset() =~= Seq::<Route>::empty().push(r).to_multiset());
                    assert(groups_routes(group_vec(partitions)) =~= groups_routes(before).insert(r));
                }
            },
        }
        i = i + 1;
    }
    assert(input.take(i as int) =~= input);
    partitions
}


pub proof fn lemma_filter_none(s: Seq<Route>, p: spec_fn(Route) -> bool)
    requires
        forall|q: int| 0 <= q < s.len() ==> !p(#[trigger] s[q]),
    ensures
        s.filter(p) =~= Seq::<Route>::empty(),
    decreases s.len(),
{
    reveal(Seq::filter);
    if s.len() > 0 {
        assert forall|q: int| 0 <= q < s.drop_last().len() implies !p(#[trigger] s.drop_last()[q]) by {
            assert(s.drop_last()[q] == s[q]);
        }
        lemma_filter_none(s.drop_last(), p);
        assert(!p(s[s.len() - 1]));
    }
}

pub proof fn lemma_filter_some(s: Seq<Route>, p: spec_fn(Route) -> bool)
    requires
        s.filter(p).len() > 0,
    ensures
        exists|q: int| 0 <= q < s.len() && p(#[trigger] s[q]),
{
    if forall|q: int| 0 <= q < s.len() ==> !p(#[trigger] s[q]) {
        lemma_filter_none(s, p);
    }
}

proof fn lemma_group_existing(
    kind: Grouping,
    prefix: Seq<Route>,
    before: Seq<(ConditionType, im::Vector<Route>)>,
    j: int,
    r: Route,
    c0: ConditionType,
    v: im::Vector<Route>,
)
    requires
        grouped_by(kind, prefix, before),
        0 <= j < before.len(),
        before[j].0 == c0,
        c0.key() == grouping_key(kind, r),
        route_vec(v) == route_vec(before[j].1).push(r),
    ensures
        grouped_by(kind, prefix.push(r), before.update(j, (c0, v))),
{
    reveal(grouped_by);
    broadcast use vstd::seq::Seq::lemma_filter_push;
    let after = before.update(j, (c0, v));
    let next = prefix.push(r);
    assert forall|i: int| 0 <= i < after.len() implies #[trigger] route_vec(after[i].1) == next.filter(
        has_key(kind, after[i].0.key()),
    ) by {
        let p = has_key(kind, after[i].0.key());
        assert(next.filter(p) == if p(r) {
            prefix.filter(p).push(r)
        } else {
            prefix.filter(p)
        });
        if i != j {
            assert(before[i].0.key() != before[j].0.key());
            assert(route_vec(before[i].1) == prefix.filter(has_key(kind, before[i].0.key())));
        } else {
            assert(route_vec(before[j].1) == prefix.filter(has_key(kind, before[j].0.key())));
        }
    }
    assert forall|i: int| 0 <= i < after.len() implies route_vec(#[trigger] after[i].1).len() > 0 by {
        if i != j {
            assert(route_vec(before[i].1).len() > 0);
        }
    }
    assert forall|q: int| 0 <= q < next.len() implies exists|i: int|
        0 <= i < after.len() && #[trigger] after[i].0.key() == grouping_key(kind, #[trigger] next[q]) by {
        if q < prefix.len() {
            assert(next[q] == prefix[q]);
            let i = choose|i: int| 0 <= i < before.len() && #[trigger] before[i].0.key() == grouping_key(kind, prefix[q]);
            assert(after[i].0.key() == before[i].0.key());
        } else {
            assert(after[j].0.key() == grouping_key(kind, next[q]));
        }
    }
    assert forall|i: int, k: int| 0 <= i < k < after.len() implies exists|p: int|
        0 <= p < next.len() && grouping_key(kind, #[trigger] next[p]) == #[trigger] after[i].0.key()
            && forall|q: int| 0 <= q <= p ==> grouping_key(kind, next[q]) != #[trigger] after[k].0.key() by {
        assert(after[i].0.key() == before[i].0.key());
        assert(after[k].0.key() == before[k].0.key());
        let p = choose|p: int|
            0 <= p < prefix.len() && grouping_key(kind, #[trigger] prefix[p]) == #[trigger] before[i].0.key()
                && forall|q: int| 0 <= q <= p ==> grouping_key(kind, prefix[q]) != #[trigger] before[k].0.key();
        assert(next[p] == prefix[p]);
        assert forall|q: int| 0 <= q <= p implies grouping_key(kind, next[q]) != #[trigger] after[k].0.key() by {
            assert(next[q] == prefix[q]);
        }
    }
}

proof fn lemma_group_new(
    kind: Grouping,
    prefix: Seq<Route>,
    before: Seq<(ConditionType, im::Vector<Route>)>,
    r: Route,
    c: ConditionType,
    v: im::Vector<Route>,
)
    requires
        grouped_by(kind, prefix, before),
        forall|j: int| 0 <= j < before.len() ==> #[trigger] before[j].0.key() != c.key(),
        c.key() == grouping_key(kind, r),
        route_vec(v) == seq![r],
    ensures
        grouped_by(kind, prefix.push(r), before.push((c, v))),
{
    reveal(grouped_by);
    broadcast use vstd::seq::Seq::lemma_filter_push;
    let after = before.push((c, v));
    let next = prefix.push(r);
    let m = before.len() as int;
    assert forall|q: int| 0 <= q < prefix.len() implies grouping_key(kind, #[trigger] prefix[q]) != c.key() by {
        let i = choose|i: int| 0 <= i < before.len() && #[trigger] before[i].0.key() == grouping_key(kind, prefix[q]);
    }
    assert forall|i: int, k: int| 0 <= i < k < after.len() implies #[trigger] after[i].0.key() != #[trigger] after[k].0.key() by {
        if k < m {
            assert(after[i] == before[i] && after[k] == before[k]);
        } else {
            assert(after[i] == before[i]);
        }
    }
    assert forall|i: int| 0 <= i < after.len() implies #[trigger] route_vec(after[i].1) == next.filter(
        has_key(kind, after[i].0.key()),
    ) by {
        let p = has_key(kind, after[i].0.key());
        assert(next.filter(p) == if p(r) {
            prefix.filter(p).push(r)
        } else {
            prefix.filter(p)
        });
        if i < m {
            assert(after[i] == before[i]);
            assert(route_vec(before[i].1) == prefix.filter(has_key(kind, before[i].0.key())));
        } else {
            assert forall|q: int| 0 <= q < prefix.len() implies !p(#[trigger] prefix[q]) by {
                assert(grouping_key(kind, prefix[q]) != c.key());
            }
            lemma_filter_none(prefix, p);
            assert(seq![r] =~= Seq::<Route>::empty().push(r));
        }
    }
    assert forall|i: int| 0 <= i < after.len() implies route_vec(#[trigger] after[i].1).len() > 0 by {
        if i < m {
            assert(after[i] == before[i]);
        }
    }
    assert forall|q: int| 0 <= q < next.len() implies exists|i: int|
        0 <= i < after.len() && #[trigger] after[i].0.key() == grouping_key(kind, #[trigger] next[q]) by {
        if q < prefix.len() {
            assert(next[q] == prefix[q]);
            let i = choose|i: int| 0 <= i < before.len() && #[trigger] before[i].0.key() == grouping_key(kind, prefix[q]);
            assert(after[i] == before[i]);
        } else {
            assert(after[m].0.key() == grouping_key(kind, next[q]));
        }
    }
    assert forall|i: int, k: int| 0 <= i < k < after.len() implies exists|p: int|
        0 <= p < next.len() && grouping_key(kind, #[trigger] next[p]) == #[trigger] after[i].0.key()
            && forall|q: int| 0 <= q <= p ==> grouping_key(kind, next[q]) != #[trigger] after[k].0.key() by {
        assert(after[i] == before[i]);
        if k < m {
            assert(after[k] == before[k]);
            let p = choose|p: int|
                0 <= p < prefix.len() && grouping_key(kind, #[trigger] prefix[p]) == #[trigger] before[i].0.key()
                    && forall|q: int| 0 <= q <= p ==> grouping_key(kind, prefix[q]) != #[trigger] before[k].0.key();
            assert(next[p] == prefix[p]);
            assert forall|q: int| 0 <= q <= p implies grouping_key(kind, next[q]) != #[trigger] after[k].0.key() by {
                assert(next[q] == prefix[q]);
            }
        } else {
            let hp = has_key(kind, before[i].0.key());
            assert(route_vec(before[i].1) == prefix.filter(hp));
            lemma_filter_some(prefix, hp);
            let p = choose|p: int| 0 <= p < prefix.len() && hp(#[trigger] prefix[p]);
            assert(next[p] == prefix[p]);
            assert forall|q: int| 0 <= q <= p implies grouping_key(kind, next[q]) != #[trigger] after[k].0.key() by {
                assert(next[q] == prefix[q]);
            }
        }
    }
}

/// The pass that partitions routes by the byte length of their path string.
#[derive(Debug, Default)]
pub struct Length;

/// The pass that partitions routes by their number of path segments.
#[derive(Debug, Default)]
pub struct Segcount;

/// The groups of a grouping satisfy what `Pass::partition` promises.
proof fn lemma_grouping_fits(kind: Grouping, input: Seq<Route>, out: Seq<(ConditionType, im::Vector<Route>)>, i: int, r: Route)
    requires
        grouped_by(kind, input, out),
        0 <= i < out.len(),
        route_vec(out[i].1).to_multiset().count(r) > 0,
    ensures
        out[i].0.key() == grouping_key(kind, r),
{
    reveal(grouped_by);
    let p = has_key(kind, out[i].0.key());
    let g = route_vec(out[i].1);
    assert(g == input.filter(p));
    assert(g.contains(r));
    let q = choose|q: int| 0 <= q < g.len() && g[q] == r;
    input.lemma_filter_pred(p, q);
}

impl Length {
    /// Groups routes by path length.
    pub fn partition_routes(routes: im::Vector<Route>) -> (out: im::Vector<(ConditionType, im::Vector<Route>)>)
        ensures
            grouped_by(Grouping::ByLength, route_vec(routes), group_vec(out)),
            groups_view(group_vec(out)) == group_fold(Grouping::ByLength, route_vec(routes)),
            route_vec(routes).to_multiset() == groups_routes(group_vec(out)),
    {
        group_routes(routes, Grouping::ByLength)
    }
}

impl Segcount {
    /// Groups routes by segment count.
    pub fn partition_routes(routes: im::Vector<Route>) -> (out: im::Vector<(ConditionType, im::Vector<Route>)>)
        ensures
            grouped_by(Grouping::BySegments, route_vec(routes), group_vec(out)),
            groups_view(group_vec(out)) == group_fold(Grouping::BySegments, route_vec(routes)),
            route_vec(routes).to_multiset() == groups_routes(group_vec(out)),
    {
        group_routes(routes, Grouping::BySegments)
    }
}

impl Partitioner for Length {
    open spec fn fits(key: CondKey, r: Route) -> bool {
        key == grouping_key(Grouping::ByLength, r)
    }

    open spec fn groups(routes: Seq<Route>) -> Seq<(ConditionType, Seq<Route>)> {
        group_fold(Grouping::ByLength, routes)
    }

    fn partition(&mut self, routes: im::Vector<Route>) -> (out: im::Vector<(ConditionType, im::Vector<Route>)>) {
        let out = Length::partition_routes(routes);
        proof {
            reveal(grouped_by);
            assert forall|i: int, r: Route|
                0 <= i < group_vec(out).len() && #[trigger] route_vec(group_vec(out)[i].1).to_multiset().count(r) > 0
                    implies Self::fits(group_vec(out)[i].0.key(), r) by {
                lemma_grouping_fits(Grouping::ByLength, route_vec(routes), group_vec(out), i, r);
            }
        }
        out
    }
}

impl Partitioner for Segcount {
    open spec fn fits(key: CondKey, r: Route) -> bool {
        key == grouping_key(Grouping::BySegments, r)
    }

    open spec fn groups(routes: Seq<Route>) -> Seq<(ConditionType, Seq<Route>)> {
        group_fold(Grouping::BySegments, routes)
    }

    fn partition(&mut self, routes: im::Vector<Route>) -> (out: im::Vector<(ConditionType, im::Vector<Route>)>) {
        let out = Segcount::partition_routes(routes);
        proof {
            reveal(grouped_by);
            assert forall|i: int, r: Route|
                0 <= i < group_vec(out).len() && #[trigger] route_vec(group_vec(out)[i].1).to_multiset().count(r) > 0
                    implies Self::fits(group_vec(out)[i].0.key(), r) by {
                lemma_grouping_fits(Grouping::BySegments, route_vec(routes), group_vec(out), i, r);
            }
        }
        out
    }
}

impl Pass for Length {
    fn run(&mut self, tree: &mut ConditionTree) {
        tree.insert_root_condition(self);
    }
}

impl Pass for Segcount {
    fn run(&mut self, tree: &mut ConditionTree) {
        tree.insert_root_condition(self);
    }
}

} // verus!
