//! Printing a condition tree as a router skeleton: a `match` over the routes of
//! each level, and a decision on the path length for the levels below.
use vstd::prelude::*;
use crate::collections::{cnode_vec, cnode_vec_get, cnode_vec_len, route_vec, route_vec_get, route_vec_len};
use crate::condition::{
    cview, cviews, lemma_cviews_push, lemma_same_tree_cview, result_view, CondView, ConditionNode, ConditionTree,
    ConditionType, CustomCondition, TreeView,
};
use crate::router::{path_text, Route};
use crate::text::{
    decimal, lemma_occurs_left, lemma_occurs_right, lemma_occurs_self, line, occurs_at, push_char, push_decimal,
    push_indent, push_line,
};

verus! {

/// Printed text and the deepest indentation level it used.
pub struct FmtOut {
    pub text: Seq<char>,
    pub peak: nat,
}

pub open spec fn peak_max(a: nat, b: nat) -> nat {
    if a >= b {
        a
    } else {
        b
    }
}

/// One arm per route, matching the route's path.
pub open spec fn route_arms(w: nat, rs: Seq<Route>) -> Seq<char>
    decreases rs.len(),
{
    if rs.len() == 0 {
        seq![]
    } else {
        route_arms(w, rs.drop_last()) + line(w, "b\""@ + path_text(rs.last()@.path) + "\" => {},"@)
    }
}

/// The `match` over a level's routes with a fallback arm; nothing for no routes.
pub open spec fn route_match(w: nat, rs: Seq<Route>) -> Seq<char> {
    if rs.len() > 0 {
        line(w, "match route {"@) + route_arms(w + 1, rs) + line(w + 1, "_ => {},"@)
    } else {
        seq![]
    }
}

/// A level: the `match` over its routes, then the length decision on the levels
/// below, inside a further arm when there were routes. The `match` is closed only
/// when there are no levels below.
#[verifier::opaque]
pub open spec fn fmt_r(w: nat, rs: Seq<Route>, cs: Seq<ConditionNode>) -> FmtOut
    decreases cs, 3nat,
{
    let has = rs.len() > 0;
    let base: nat = if has {
        w + 1
    } else {
        w
    };
    if cs.len() > 0 {
        let w2: nat = if has {
            w + 2
        } else {
            w
        };
        let g = fmt_len(w2, cs);
        FmtOut {
            text: route_match(w, rs) + (if has {
                line(w + 1, "_ => {"@)
            } else {
                seq![]
            }) + g.text + (if has {
                line(w + 1, "}"@)
            } else {
                seq![]
            }),
            peak: peak_max(base, g.peak),
        }
    } else {
        FmtOut {
            text: route_match(w, rs) + (if has {
                line(w, "}"@)
            } else {
                seq![]
            }),
            peak: base,
        }
    }
}

/// The decision on the path length over levels, the last listed first.
#[verifier::opaque]
pub open spec fn fmt_len(w: nat, cs: Seq<ConditionNode>) -> FmtOut
    decreases cs, 2nat,
{
    let a = len_arms(w + 1, cs);
    FmtOut {
        text: line(w, "let l = route.len();"@) + line(w, "match l {"@) + a.text + line(w + 1, "_ => {}"@) + line(
            w,
            "}"@,
        ),
        peak: peak_max(w + 1, a.peak),
    }
}

/// The arms of a length decision, the last level listed first.
#[verifier::opaque]
pub open spec fn len_arms(w: nat, cs: Seq<ConditionNode>) -> FmtOut
    decreases cs, 1nat,
{
    if cs.len() == 0 {
        FmtOut { text: seq![], peak: w }
    } else {
        let a = len_arm(w, cs.last());
        let b = len_arms(w, cs.drop_last());
        FmtOut { text: a.text + b.text, peak: peak_max(a.peak, b.peak) }
    }
}

/// One arm of a length decision; a level under another condition adds nothing.
#[verifier::opaque]
pub open spec fn len_arm(w: nat, n: ConditionNode) -> FmtOut
    decreases n, 0nat,
{
    match n.condition {
        ConditionType::Length(l) => {
            let body = fmt_r(w + 1, route_vec(n.stored_routes), n.children@);
            FmtOut {
                text: line(w, decimal(l as nat) + " => {"@) + body.text + line(w, "},"@),
                peak: peak_max(w + 1, body.peak),
            }
        },
        _ => FmtOut { text: seq![], peak: w },
    }
}

/// The name of a condition's kind.
pub open spec fn kind_text(c: ConditionType) -> Seq<char> {
    match c {
        ConditionType::SegmentCount(_) => "SegmentCount"@,
        ConditionType::Length(_) => "Length"@,
        ConditionType::Prefix(_) => "Prefix"@,
        ConditionType::Custom(k) => k.kind@,
    }
}

/// The levels can be printed: all share the kind of a length condition, the last
/// is a length condition (only length decisions are printed), and the same holds
/// below every length level.
#[verifier::opaque]
pub open spec fn fmt_ok(cs: Seq<ConditionNode>) -> bool
    decreases cs,
{
    &&& forall|i: int| 0 <= i < cs.len() ==> kind_text((#[trigger] cs[i]).condition) == "Length"@
    &&& cs.len() > 0 ==> cs.last().condition is Length
    &&& forall|i: int|
        0 <= i < cs.len() ==> ((#[trigger] cs[i]).condition is Length ==> fmt_ok(cs[i].children@))
}

proof fn lemma_fmt_r_unfold(w: nat, rs: Seq<Route>, cs: Seq<ConditionNode>)
    ensures
        cs.len() > 0 ==> ({
            let has = rs.len() > 0;
            let w2: nat = if has {
                w + 2
            } else {
                w
            };
            let g = fmt_len(w2, cs);
            fmt_r(w, rs, cs) == FmtOut {
                text: route_match(w, rs) + (if has {
                    line(w + 1, "_ => {"@)
                } else {
                    seq![]
                }) + g.text + (if has {
                    line(w + 1, "}"@)
                } else {
                    seq![]
                }),
                peak: peak_max(
                    if has {
                        w + 1
                    } else {
                        w
                    },
                    g.peak,
                ),
            }
        }),
        cs.len() == 0 ==> fmt_r(w, rs, cs) == (FmtOut {
            text: route_match(w, rs) + (if rs.len() > 0 {
                line(w, "}"@)
            } else {
                seq![]
            }),
            peak: if rs.len() > 0 {
                w + 1
            } else {
                w
            },
        }),
{
    reveal(fmt_r);
    reveal(fmt_len);
    reveal(len_arms);
    reveal(len_arm);
}

proof fn lemma_fmt_len_unfold(w: nat, cs: Seq<ConditionNode>)
    ensures
        ({
            let a = len_arms(w + 1, cs);
            fmt_len(w, cs) == FmtOut {
                text: line(w, "let l = route.len();"@) + line(w, "match l {"@) + a.text + line(w + 1, "_ => {}"@)
                    + line(w, "}"@),
                peak: peak_max(w + 1, a.peak),
            }
        }),
{
    reveal(fmt_r);
    reveal(fmt_len);
    reveal(len_arms);
    reveal(len_arm);
}

proof fn lemma_len_arms_step(w: nat, cs: Seq<ConditionNode>)
    ensures
        cs.len() == 0 ==> len_arms(w, cs) == (FmtOut { text: seq![], peak: w }),
        cs.len() > 0 ==> ({
            let a = len_arm(w, cs.last());
            let b = len_arms(w, cs.drop_last());
            len_arms(w, cs) == FmtOut { text: a.text + b.text, peak: peak_max(a.peak, b.peak) }
        }),
{
    reveal(fmt_r);
    reveal(fmt_len);
    reveal(len_arms);
    reveal(len_arm);
}

proof fn lemma_len_arm_unfold(w: nat, n: ConditionNode)
    ensures
        n.condition matches ConditionType::Length(l) ==> ({
            let body = fmt_r(w + 1, route_vec(n.stored_routes), n.children@);
            len_arm(w, n) == FmtOut {
                text: line(w, decimal(l as nat) + " => {"@) + body.text + line(w, "},"@),
                peak: peak_max(w + 1, body.peak),
            }
        }),
        !(n.condition is Length) ==> len_arm(w, n) == (FmtOut { text: seq![], peak: w }),
{
    reveal(fmt_r);
    reveal(fmt_len);
    reveal(len_arms);
    reveal(len_arm);
}

proof fn lemma_fmt_peaks(w: nat, rs: Seq<Route>, cs: Seq<ConditionNode>)
    ensures
        fmt_r(w, rs, cs).peak >= w,
        cs.len() > 0 ==> fmt_len(
            if rs.len() > 0 {
                w + 2
            } else {
                w
            },
            cs,
        ).peak <= fmt_r(w, rs, cs).peak,
        rs.len() > 0 ==> fmt_r(w, rs, cs).peak >= w + 1,
        rs.len() > 0 && cs.len() > 0 ==> fmt_r(w, rs, cs).peak >= w + 3,
{
    lemma_fmt_r_unfold(w, rs, cs);
    if cs.len() > 0 {
        let w2: nat = if rs.len() > 0 {
            w + 2
        } else {
            w
        };
        lemma_fmt_len_unfold(w2, cs);
    }
}

proof fn lemma_len_arms_peak(w: nat, cs: Seq<ConditionNode>)
    ensures
        len_arms(w, cs).peak >= w,
    decreases cs.len(),
{
    lemma_len_arms_step(w, cs);
    if cs.len() > 0 {
        lemma_len_arms_peak(w, cs.drop_last());
    }
}

proof fn lemma_fmt_ok_child(cs: Seq<ConditionNode>, i: int)
    requires
        fmt_ok(cs),
        0 <= i < cs.len(),
        cs[i].condition is Length,
    ensures
        fmt_ok(cs[i].children@),
{
    reveal(fmt_ok);
}

proof fn lemma_fmt_ok_last(cs: Seq<ConditionNode>)
    requires
        fmt_ok(cs),
        cs.len() > 0,
    ensures
        cs.last().condition is Length,
{
    reveal(fmt_ok);
}

/// Appends one arm of a length decision: for a level under a length condition,
/// the length, the level printed one deeper, and the closing brace.
fn length_arm(writer: &mut String, w: usize, n: &ConditionNode)
    requires
        n.condition is Length ==> fmt_ok(n.children@),
        len_arm(w as nat, *n).peak <= usize::MAX,
    ensures
        final(writer)@ == old(writer)@ + len_arm(w as nat, *n).text,
    decreases *n, 1nat,
{
    proof {
        lemma_len_arm_unfold(w as nat, *n);
    }
    match &n.condition {
        ConditionType::Length(l) => {
            proof {
                lemma_fmt_peaks((w + 1) as nat, route_vec(n.stored_routes), n.children@);
            }
            push_indent(writer, w);
            push_decimal(writer, *l as u64);
            writer.append(" => {");
            push_char(writer, '\n');
            let ghost head = writer@;
            Format::format_exact(writer, w + 1, &n.stored_routes, &n.children);
            push_line(writer, w, "},");
            assert(writer@ =~= old(writer)@ + len_arm(w as nat, *n).text);
        },
        _ => {
            assert(writer@ =~= old(writer)@ + len_arm(w as nat, *n).text);
        },
    }
}

/// Appends the arms for the levels, the last listed first.
fn length_arms(writer: &mut String, w: usize, cs: &Vec<ConditionNode>)
    requires
        fmt_ok(cs@),
        len_arms(w as nat, cs@).peak <= usize::MAX,
    ensures
        final(writer)@ == old(writer)@ + len_arms(w as nat, cs@).text,
    decreases cs@, 2nat,
{
    let ghost full = len_arms(w as nat, cs@);
    let mut k: usize = cs.len();
    proof {
        assert(cs@.take(k as int) =~= cs@);
    }
    while k > 0
        invariant
            k <= cs@.len(),
            fmt_ok(cs@),
            full == len_arms(w as nat, cs@),
            len_arms(w as nat, cs@.take(k as int)).peak <= full.peak,
            full.peak <= usize::MAX,
            writer@ + len_arms(w as nat, cs@.take(k as int)).text == old(writer)@ + full.text,
        decreases k,
    {
        let n = &cs[k - 1];
        let ghost pre = cs@.take(k as int);
        proof {
            lemma_len_arms_step(w as nat, pre);
            assert(pre.last() == *n);
            assert(pre.drop_last() =~= cs@.take(k - 1));
            assert(cs@[k - 1] == *n);
            if n.condition is Length {
                lemma_fmt_ok_child(cs@, k - 1);
            }
        }
        length_arm(writer, w, n);
        assert(writer@ + len_arms(w as nat, cs@.take(k - 1)).text =~= old(writer)@ + full.text);
        k = k - 1;
    }
    proof {
        lemma_len_arms_step(w as nat, cs@.take(0));
        assert(writer@ =~= old(writer)@ + full.text);
    }
}

/// Below every level under a length condition, the levels can be printed.
pub open spec fn levels_fmt_ok(cs: Seq<ConditionNode>) -> bool {
    forall|i: int| 0 <= i < cs.len() && (#[trigger] cs[i]).condition is Length ==> fmt_ok(cs[i].children@)
}

/// The arms of a length decision over levels, in the order given.
fn length_arms_given(writer: &mut String, w: usize, cs: &Vec<ConditionNode>)
    requires
        levels_fmt_ok(cs@),
        len_arms(w as nat, cs@.reverse()).peak <= usize::MAX,
    ensures
        final(writer)@ == old(writer)@ + len_arms(w as nat, cs@.reverse()).text,
{
    let ghost rc = cs@.reverse();
    let ghost full = len_arms(w as nat, rc);
    let len = cs.len();
    let mut m: usize = len;
    proof {
        assert(rc.take(m as int) =~= rc);
    }
    while m > 0
        invariant
            m <= len,
            len == cs@.len(),
            rc == cs@.reverse(),
            levels_fmt_ok(cs@),
            full == len_arms(w as nat, rc),
            len_arms(w as nat, rc.take(m as int)).peak <= full.peak,
            full.peak <= usize::MAX,
            writer@ + len_arms(w as nat, rc.take(m as int)).text == old(writer)@ + full.text,
        decreases m,
    {
        let n = &cs[len - m];
        let ghost pre = rc.take(m as int);
        proof {
            assert(rc[m - 1] == cs@[len - m]);
            lemma_len_arms_step(w as nat, pre);
            assert(pre.last() == *n);
            assert(pre.drop_last() =~= rc.take(m - 1));
            assert(n.condition is Length ==> fmt_ok(cs@[len - m].children@));
        }
        length_arm(writer, w, n);
        assert(writer@ + len_arms(w as nat, rc.take(m - 1)).text =~= old(writer)@ + full.text);
        m = m - 1;
    }
    proof {
        lemma_len_arms_step(w as nat, rc.take(0));
        assert(writer@ =~= old(writer)@ + full.text);
    }
}

/// The same arms for levels held in an `im::Vector`.
fn length_arms_top(writer: &mut String, w: usize, children: &im::Vector<ConditionNode>)
    requires
        fmt_ok(cnode_vec(*children)),
        len_arms(w as nat, cnode_vec(*children)).peak <= usize::MAX,
    ensures
        final(writer)@ == old(writer)@ + len_arms(w as nat, cnode_vec(*children)).text,
{
    let ghost cs = cnode_vec(*children);
    let ghost full = len_arms(w as nat, cs);
    let mut k: usize = cnode_vec_len(children);
    proof {
        assert(cs.take(k as int) =~= cs);
    }
    while k > 0
        invariant
            k <= cs.len(),
            cs == cnode_vec(*children),
            fmt_ok(cs),
            full == len_arms(w as nat, cs),
            len_arms(w as nat, cs.take(k as int)).peak <= full.peak,
            full.peak <= usize::MAX,
            writer@ + len_arms(w as nat, cs.take(k as int)).text == old(writer)@ + full.text,
        decreases k,
    {
        let n = cnode_vec_get(children, k - 1);
        let ghost pre = cs.take(k as int);
        proof {
            lemma_len_arms_step(w as nat, pre);
            assert(pre.last() == *n);
            assert(pre.drop_last() =~= cs.take(k - 1));
            if n.condition is Length {
                lemma_fmt_ok_child(cs, k - 1);
            }
        }
        length_arm(writer, w, n);
        assert(writer@ + len_arms(w as nat, cs.take(k - 1)).text =~= old(writer)@ + full.text);
        k = k - 1;
    }
    proof {
        lemma_len_arms_step(w as nat, cs.take(0));
        assert(writer@ =~= old(writer)@ + full.text);
    }
}

/// The length decision for levels held in an `im::Vector`.
fn length_decision_top(writer: &mut String, w: usize, children: &im::Vector<ConditionNode>)
    requires
        fmt_ok(cnode_vec(*children)),
        fmt_len(w as nat, cnode_vec(*children)).peak <= usize::MAX,
    ensures
        final(writer)@ == old(writer)@ + fmt_len(w as nat, cnode_vec(*children)).text,
{
    let ghost cs = cnode_vec(*children);
    proof {
        lemma_fmt_len_unfold(w as nat, cs);
        lemma_len_arms_peak((w + 1) as nat, cs);
    }
    push_line(writer, w, "let l = route.len();");
    push_line(writer, w, "match l {");
    length_arms_top(writer, w + 1, children);
    push_line(writer, w + 1, "_ => {}");
    push_line(writer, w, "}");
    assert(writer@ =~= old(writer)@ + fmt_len(w as nat, cs).text);
}

/// Whether `i` is the last level of its kind: the level that decides how the
/// levels of that kind are printed.
pub open spec fn decisive(cs: Seq<ConditionNode>, i: int) -> bool {
    &&& 0 <= i < cs.len()
    &&& forall|j: int| i < j < cs.len() ==> kind_text((#[trigger] cs[j]).condition) != kind_text(cs[i].condition)
}

/// Whether the levels of the kind of level `i` are printed as a length decision.
pub open spec fn length_decided(cs: Seq<ConditionNode>, i: int) -> bool {
    exists|d: int|
        #[trigger] decisive(cs, d) && i <= d && kind_text(cs[d].condition) == kind_text(cs[i].condition)
            && cs[d].condition is Length
}

/// The levels can be printed: the levels of each kind are decided by a length or
/// a custom condition, and the same holds below every level that a length
/// decision prints.
pub open spec fn formattable(cs: Seq<ConditionNode>) -> bool
    decreases cs,
{
    &&& forall|i: int| #[trigger] decisive(cs, i) ==> (cs[i].condition is Length || cs[i].condition is Custom)
    &&& forall|i: int|
        0 <= i < cs.len() ==> ((#[trigger] cs[i]).condition is Length && length_decided(cs, i) ==> formattable(
            cs[i].children@,
        ))
}

/// Whether levels are all printed by length decisions, at every depth.
fn check_fmt_ok(cs: &Vec<ConditionNode>) -> (b: bool)
    ensures
        b == fmt_ok(cs@),
    decreases cs@,
{
    proof {
        reveal(fmt_ok);
    }
    let n = cs.len();
    if n > 0 {
        match &cs[n - 1].condition {
            ConditionType::Length(_) => {},
            _ => {
                return false;
            },
        }
    }
    let mut i: usize = 0;
    while i < n
        invariant
            i <= n,
            n == cs@.len(),
            n > 0 ==> cs@.last().condition is Length,
            forall|j: int|
                0 <= j < i ==> kind_text((#[trigger] cs@[j]).condition) == "Length"@ && (cs@[j].condition is Length
                    ==> fmt_ok(cs@[j].children@)),
        decreases n - i,
    {
        let k = cs[i].condition.get_type();
        if !crate::text::str_eq(k.as_str(), "Length") {
            assert(kind_text(cs@[i as int].condition) != "Length"@);
            assert(!fmt_ok(cs@)) by {
                reveal(fmt_ok);
            }
            return false;
        }
        match &cs[i].condition {
            ConditionType::Length(_) => {
                assert(decreases_to!(cs@ => cs@[i as int]));
                if !check_fmt_ok(&cs[i].children) {
                    assert(cs@[i as int].condition is Length);
                    assert(!fmt_ok(cs@[i as int].children@));
                    assert(!fmt_ok(cs@)) by {
                        reveal(fmt_ok);
                    }
                    return false;
                }
            },
            _ => {},
        }
        i = i + 1;
    }
    true
}

proof fn lemma_len_arms_prefix(w: nat, cs: Seq<ConditionNode>, k: int)
    requires
        0 <= k <= cs.len(),
    ensures
        len_arms(w, cs.take(k)).peak <= len_arms(w, cs).peak,
    decreases cs.len() - k,
{
    if k < cs.len() {
        lemma_len_arms_prefix(w, cs, k + 1);
        let t = cs.take(k + 1);
        lemma_len_arms_step(w, t);
        assert(t.drop_last() =~= cs.take(k));
    } else {
        assert(cs.take(k) =~= cs);
    }
}

/// The deepest indentation the length decisions of a level reach, when it fits.
fn peak_r(w: usize, routes: &im::Vector<Route>, cs: &Vec<ConditionNode>) -> (r: Option<usize>)
    ensures
        match r {
            Some(p) => p == fmt_r(w as nat, route_vec(*routes), cs@).peak,
            None => fmt_r(w as nat, route_vec(*routes), cs@).peak > usize::MAX,
        },
    decreases cs@, 3nat,
{
    let ghost rs = route_vec(*routes);
    proof {
        lemma_fmt_r_unfold(w as nat, rs, cs@);
        lemma_fmt_peaks(w as nat, rs, cs@);
    }
    let has = route_vec_len(routes) > 0;
    let base = if has {
        if w == usize::MAX {
            return None;
        }
        w + 1
    } else {
        w
    };
    if cs.len() == 0 {
        return Some(base);
    }
    let w2 = if has {
        if w > usize::MAX - 2 {
            return None;
        }
        w + 2
    } else {
        w
    };
    match peak_len(w2, cs) {
        Some(p) => Some(
            if base >= p {
                base
            } else {
                p
            },
        ),
        None => None,
    }
}

/// The deepest indentation of a length decision, when it fits.
fn peak_len(w: usize, cs: &Vec<ConditionNode>) -> (r: Option<usize>)
    ensures
        match r {
            Some(p) => p == fmt_len(w as nat, cs@).peak,
            None => fmt_len(w as nat, cs@).peak > usize::MAX,
        },
    decreases cs@, 2nat,
{
    proof {
        lemma_fmt_len_unfold(w as nat, cs@);
    }
    if w == usize::MAX {
        return None;
    }
    match peak_arms(w + 1, cs) {
        Some(p) => Some(
            if w + 1 >= p {
                w + 1
            } else {
                p
            },
        ),
        None => None,
    }
}

/// The deepest indentation of the arms of a length decision, when it fits.
fn peak_arms(w: usize, cs: &Vec<ConditionNode>) -> (r: Option<usize>)
    ensures
        match r {
            Some(p) => p == len_arms(w as nat, cs@).peak,
            None => len_arms(w as nat, cs@).peak > usize::MAX,
        },
    decreases cs@, 1nat,
{
    let mut acc = w;
    let mut i: usize = 0;
    proof {
        lemma_len_arms_step(w as nat, cs@.take(0));
    }
    while i < cs.len()
        invariant
            i <= cs@.len(),
            acc == len_arms(w as nat, cs@.take(i as int)).peak,
        decreases cs@.len() - i,
    {
        let ghost t = cs@.take(i + 1);
        proof {
            lemma_len_arms_step(w as nat, t);
            assert(t.drop_last() =~= cs@.take(i as int));
            assert(t.last() == cs@[i as int]);
        }
        match peak_arm(w, &cs[i]) {
            Some(p) => {
                if p > acc {
                    acc = p;
                }
            },
            None => {
                proof {
                    lemma_len_arms_prefix(w as nat, cs@, i + 1);
                }
                return None;
            },
        }
        i = i + 1;
    }
    assert(cs@.take(i as int) =~= cs@);
    Some(acc)
}

/// The deepest indentation of one arm of a length decision, when it fits.
fn peak_arm(w: usize, n: &ConditionNode) -> (r: Option<usize>)
    ensures
        match r {
            Some(p) => p == len_arm(w as nat, *n).peak,
            None => len_arm(w as nat, *n).peak > usize::MAX,
        },
    decreases *n, 0nat,
{
    proof {
        lemma_len_arm_unfold(w as nat, *n);
    }
    match &n.condition {
        ConditionType::Length(_) => {
            if w == usize::MAX {
                return None;
            }
            match peak_r(w + 1, &n.stored_routes, &n.children) {
                Some(p) => Some(
                    if w + 1 >= p {
                        w + 1
                    } else {
                        p
                    },
                ),
                None => None,
            }
        },
        _ => Some(w),
    }
}

/// The kinds of levels, each once, in the order they first occur.
pub open spec fn kinds_in(cs: Seq<ConditionNode>) -> Seq<Seq<char>>
    decreases cs.len(),
{
    if cs.len() == 0 {
        seq![]
    } else {
        let prev = kinds_in(cs.drop_last());
        let k = kind_text(cs.last().condition);
        if prev.contains(k) {
            prev
        } else {
            prev.push(k)
        }
    }
}

/// The index of the last level of kind `k`, if there is one.
pub open spec fn last_of(cs: Seq<ConditionNode>, k: Seq<char>) -> Option<int>
    decreases cs.len(),
{
    if cs.len() == 0 {
        None
    } else if kind_text(cs.last().condition) == k {
        Some(cs.len() - 1)
    } else {
        last_of(cs.drop_last(), k)
    }
}

/// The levels of kind `k` as plain values, the last first.
pub open spec fn kind_levels(cs: Seq<ConditionNode>, k: Seq<char>) -> Seq<CondView>
    decreases cs.len(),
{
    if cs.len() == 0 {
        seq![]
    } else {
        let rest = kind_levels(cs.drop_last(), k);
        if kind_text(cs.last().condition) == k {
            seq![cview(cs.last())] + rest
        } else {
            rest
        }
    }
}

proof fn lemma_last_of(cs: Seq<ConditionNode>, k: Seq<char>)
    ensures
        last_of(cs, k) matches Some(d) ==> decisive(cs, d) && kind_text(cs[d].condition) == k,
        last_of(cs, k) is None ==> forall|j: int| 0 <= j < cs.len() ==> kind_text((#[trigger] cs[j]).condition) != k,
    decreases cs.len(),
{
    if cs.len() > 0 {
        lemma_last_of(cs.drop_last(), k);
        if kind_text(cs.last().condition) != k {
            assert forall|j: int| 0 <= j < cs.len() - 1 implies #[trigger] cs[j] == cs.drop_last()[j] by {}
        }
    }
}

/// The kinds of levels, each once, in the order they first occur.
fn kinds_of(cs: &Vec<ConditionNode>) -> (r: Vec<String>)
    ensures
        r@.map_values(|t: String| t@) == kinds_in(cs@),
{
    let mut kinds: Vec<String> = Vec::new();
    let mut i: usize = 0;
    while i < cs.len()
        invariant
            i <= cs@.len(),
            kinds@.map_values(|t: String| t@) == kinds_in(cs@.take(i as int)),
        decreases cs.len() - i,
    {
        let ghost kv = kinds@.map_values(|t: String| t@);
        let k = cs[i].condition.get_type();
        let mut seen = false;
        let mut j: usize = 0;
        while j < kinds.len()
            invariant
                j <= kinds@.len(),
                kv == kinds@.map_values(|t: String| t@),
                seen == (exists|m: int| 0 <= m < j && kv[m] == k@),
            decreases kinds.len() - j,
        {
            assert(kv[j as int] == kinds@[j as int]@);
            if crate::text::str_eq(kinds[j].as_str(), k.as_str()) {
                seen = true;
            }
            j = j + 1;
        }
        let ghost t = cs@.take(i + 1);
        assert(t.drop_last() =~= cs@.take(i as int));
        assert(t.last() == cs@[i as int]);
        assert(seen == kv.contains(k@));
        if !seen {
            kinds.push(k);
            assert(kinds@.map_values(|t: String| t@) =~= kv.push(k@));
        }
        i = i + 1;
    }
    assert(cs@.take(i as int) =~= cs@);
    kinds
}

/// The last level of a kind, if there is one.
fn last_of_kind(cs: &Vec<ConditionNode>, k: &str) -> (r: Option<usize>)
    ensures
        match r {
            Some(d) => last_of(cs@, k@) == Some(d as int),
            None => last_of(cs@, k@) is None,
        },
        r matches Some(d) ==> decisive(cs@, d as int) && kind_text(cs@[d as int].condition) == k@,
{
    proof {
        lemma_last_of(cs@, k@);
        assert(cs@.take(cs@.len() as int) =~= cs@);
    }
    let mut j: usize = cs.len();
    while j > 0
        invariant
            j <= cs@.len(),
            last_of(cs@, k@) == last_of(cs@.take(j as int), k@),
        decreases j,
    {
        let ghost t = cs@.take(j as int);
        assert(t.drop_last() =~= cs@.take(j - 1));
        assert(t.last() == cs@[j - 1]);
        let tk = cs[j - 1].condition.get_type();
        if crate::text::str_eq(tk.as_str(), k) {
            proof {
                lemma_last_of(cs@, k@);
            }
            return Some(j - 1);
        }
        j = j - 1;
    }
    None
}

/// Copies of the levels of a kind, the last first.
fn levels_of_kind(cs: &Vec<ConditionNode>, k: &str) -> (r: Vec<ConditionNode>)
    ensures
        cviews(r@) == kind_levels(cs@, k@),
{
    let mut out: Vec<ConditionNode> = Vec::new();
    let mut j: usize = cs.len();
    proof {
        assert(cs@.take(j as int) =~= cs@);
        assert(cviews(out@) =~= Seq::<CondView>::empty());
    }
    while j > 0
        invariant
            j <= cs@.len(),
            cviews(out@) + kind_levels(cs@.take(j as int), k@) == kind_levels(cs@, k@),
        decreases j,
    {
        let ghost t = cs@.take(j as int);
        assert(t.drop_last() =~= cs@.take(j - 1));
        assert(t.last() == cs@[j - 1]);
        let tk = cs[j - 1].condition.get_type();
        if crate::text::str_eq(tk.as_str(), k) {
            let c = cs[j - 1].clone();
            proof {
                lemma_same_tree_cview(c, cs@[j - 1]);
                lemma_cviews_push(out@, c);
            }
            let ghost before = cviews(out@);
            out.push(c);
            assert(cviews(out@) + kind_levels(cs@.take(j - 1), k@) =~= before + (seq![cview(cs@[j - 1])]
                + kind_levels(cs@.take(j - 1), k@)));
        }
        j = j - 1;
    }
    assert(cviews(out@) =~= cviews(out@) + kind_levels(cs@.take(0), k@));
    out
}

/// Below every level under a length condition, the levels can be printed.
pub open spec fn levels_formattable(cs: Seq<ConditionNode>) -> bool {
    forall|i: int| 0 <= i < cs.len() && (#[trigger] cs[i]).condition is Length ==> formattable(cs[i].children@)
}

/// Whether the levels below every level under a length condition are all printed
/// by length decisions.
fn check_levels_fmt_ok(cs: &Vec<ConditionNode>) -> (b: bool)
    ensures
        b == levels_fmt_ok(cs@),
{
    let mut i: usize = 0;
    while i < cs.len()
        invariant
            i <= cs@.len(),
            forall|j: int| 0 <= j < i && (#[trigger] cs@[j]).condition is Length ==> fmt_ok(cs@[j].children@),
        decreases cs@.len() - i,
    {
        match &cs[i].condition {
            ConditionType::Length(_) => {
                if !check_fmt_ok(&cs[i].children) {
                    assert(cs@[i as int].condition is Length);
                    return false;
                }
            },
            _ => {},
        }
        i = i + 1;
    }
    true
}

/// The deepest indentation of a length decision over levels in the order given,
/// when it fits.
fn peak_given(w: usize, cs: &Vec<ConditionNode>) -> (r: Option<usize>)
    ensures
        match r {
            Some(p) => p == fmt_len(w as nat, cs@.reverse()).peak,
            None => fmt_len(w as nat, cs@.reverse()).peak > usize::MAX,
        },
{
    let ghost rc = cs@.reverse();
    proof {
        lemma_fmt_len_unfold(w as nat, rc);
    }
    if w == usize::MAX {
        return None;
    }
    let len = cs.len();
    let mut acc = w + 1;
    let mut i: usize = 0;
    proof {
        lemma_len_arms_step((w + 1) as nat, rc.take(0));
    }
    while i < len
        invariant
            i <= len,
            len == cs@.len(),
            rc == cs@.reverse(),
            w < usize::MAX,
            acc == len_arms((w + 1) as nat, rc.take(i as int)).peak,
        decreases len - i,
    {
        let ghost t = rc.take(i + 1);
        proof {
            lemma_len_arms_step((w + 1) as nat, t);
            assert(t.drop_last() =~= rc.take(i as int));
            assert(t.last() == cs@[len - 1 - i]);
        }
        match peak_arm(w + 1, &cs[len - 1 - i]) {
            Some(p) => {
                if p > acc {
                    acc = p;
                }
            },
            None => {
                proof {
                    lemma_len_arms_prefix((w + 1) as nat, rc, i + 1);
                    lemma_fmt_len_unfold(w as nat, rc);
                }
                return None;
            },
        }
        i = i + 1;
    }
    assert(rc.take(len as int) =~= rc);
    Some(
        if w + 1 >= acc {
            w + 1
        } else {
            acc
        },
    )
}

/// The error for an indentation out of range.
pub open spec fn deep_text() -> Seq<char> {
    "Indentation out of range"@
}

/// A result without a value, as plain values.
pub open spec fn unit_view(r: Result<(), String>) -> Result<(), Seq<char>> {
    match r {
        Ok(()) => Ok(()),
        Err(e) => Err(e@),
    }
}

/// Printing a level with the custom implementation `c`, from the text `s`: the
/// result and the text after. When every level below is printed by length
/// decisions and the indentation fits, this is `fmt_r`'s text; otherwise the
/// `match` over the routes, then each kind's decision in the order the kinds first
/// occur (`groups_from`), then the closing brace.
pub open spec fn any_r<C: CustomCondition>(c: C, w: usize, rs: Seq<Route>, cs: Seq<ConditionNode>, s: Seq<char>) -> (
    Result<(), Seq<char>>,
    Seq<char>,
)
    decreases cs, 5nat, 0int,
{
    if fmt_ok(cs) && fmt_r(w as nat, rs, cs).peak <= usize::MAX {
        (Ok(()), s + fmt_r(w as nat, rs, cs).text)
    } else {
        let has = rs.len() > 0;
        if has && w >= usize::MAX - 1 {
            (Err(deep_text()), s)
        } else {
            let s1 = if has {
                s + route_match(w as nat, rs)
            } else {
                s
            };
            let w1: usize = if has {
                (w + 1) as usize
            } else {
                w
            };
            let g = if cs.len() > 0 {
                let s2 = if has {
                    s1 + line(w1 as nat, "_ => {"@)
                } else {
                    s1
                };
                let w2: usize = if has {
                    (w1 + 1) as usize
                } else {
                    w1
                };
                groups_from(c, cs, kinds_in(cs), 0, w2, s2)
            } else {
                (Ok(w1), s1)
            };
            match g.0 {
                Err(e) => (Err(e), g.1),
                Ok(w3) => if has {
                    if w3 == 0 {
                        (Err(deep_text()), g.1)
                    } else {
                        (Ok(()), g.1 + line((w3 - 1) as nat, "}"@))
                    }
                } else {
                    (Ok(()), g.1)
                },
            }
        }
    }
}

/// The decisions for the kinds from the `g`-th on, each decided by the last level
/// of that kind: a length decision, or the custom implementation's decision for
/// the levels of that kind (the last first), which gives the indentation after
/// it. The result carries the indentation after them.
pub open spec fn groups_from<C: CustomCondition>(
    c: C,
    cs: Seq<ConditionNode>,
    kinds: Seq<Seq<char>>,
    g: int,
    w: usize,
    s: Seq<char>,
) -> (Result<usize, Seq<char>>, Seq<char>)
    decreases cs, 4nat, kinds.len() - g,
{
    if g < 0 || g >= kinds.len() {
        (Ok(w), s)
    } else {
        let k = kinds[g];
        let st: (Result<usize, Seq<char>>, Seq<char>) = match last_of(cs, k) {
            Some(d) => match cs[d].condition {
                ConditionType::Length(_) => {
                    let x = length_group_spec(c, cs, k, w, s);
                    match x.0 {
                        Ok(()) => (Ok(w), x.1),
                        Err(e) => (Err(e), x.1),
                    }
                },
                ConditionType::Custom(_) => c.gen_spec(kind_levels(cs, k), w, s),
                _ => (Ok(w), s),
            },
            None => (Ok(w), s),
        };
        match st.0 {
            Ok(w1) => groups_from(c, cs, kinds, g + 1, w1, st.1),
            Err(e) => (Err(e), st.1),
        }
    }
}

/// The length decision over the levels of kind `k`: one arm per level of that
/// kind, the last first, and a fallback arm.
pub open spec fn length_group_spec<C: CustomCondition>(c: C, cs: Seq<ConditionNode>, k: Seq<char>, w: usize, s: Seq<char>) -> (
    Result<(), Seq<char>>,
    Seq<char>,
)
    decreases cs, 3nat, 0int,
{
    if w >= usize::MAX - 1 {
        (Err(deep_text()), s)
    } else {
        let s1 = s + line(w as nat, "let l = route.len();"@) + line(w as nat, "match l {"@);
        let a = group_arms(c, cs, k, (w + 1) as usize, cs.len() as int, s1);
        match a.0 {
            Ok(()) => (Ok(()), a.1 + line((w + 1) as nat, "_ => {}"@) + line(w as nat, "}"@)),
            Err(e) => (Err(e), a.1),
        }
    }
}

/// The arms for the levels of kind `k` before index `upto`, the last first.
pub open spec fn group_arms<C: CustomCondition>(
    c: C,
    cs: Seq<ConditionNode>,
    k: Seq<char>,
    w: usize,
    upto: int,
    s: Seq<char>,
) -> (Result<(), Seq<char>>, Seq<char>)
    decreases cs, 2nat, upto,
{
    if upto <= 0 || upto > cs.len() {
        (Ok(()), s)
    } else {
        let j = upto - 1;
        if kind_text(cs[j].condition) == k {
            let a = arm_spec(c, w, cs[j], s);
            match a.0 {
                Ok(()) => group_arms(c, cs, k, w, j, a.1),
                Err(e) => (Err(e), a.1),
            }
        } else {
            group_arms(c, cs, k, w, j, s)
        }
    }
}

/// One arm of a length decision: for a level under a length condition, the
/// length, the level printed one deeper, and the closing brace; nothing otherwise.
pub open spec fn arm_spec<C: CustomCondition>(c: C, w: usize, n: ConditionNode, s: Seq<char>) -> (
    Result<(), Seq<char>>,
    Seq<char>,
)
    decreases n, 1nat, 0int,
{
    match n.condition {
        ConditionType::Length(l) => if w == usize::MAX {
            (Err(deep_text()), s)
        } else {
            let s1 = s + line(w as nat, decimal(l as nat) + " => {"@);
            let b = any_r(c, (w + 1) as usize, route_vec(n.stored_routes), n.children@, s1);
            match b.0 {
                Ok(()) => (Ok(()), b.1 + line(w as nat, "},"@)),
                Err(e) => (Err(e), b.1),
            }
        },
        _ => (Ok(()), s),
    }
}

/// The arms for levels from index `i` on, in the order given.
pub open spec fn given_arms<C: CustomCondition>(c: C, cs: Seq<ConditionNode>, w: usize, i: int, s: Seq<char>) -> (
    Result<(), Seq<char>>,
    Seq<char>,
)
    decreases cs.len() - i,
{
    if i < 0 || i >= cs.len() {
        (Ok(()), s)
    } else {
        let a = arm_spec(c, w, cs[i], s);
        match a.0 {
            Ok(()) => given_arms(c, cs, w, i + 1, a.1),
            Err(e) => (Err(e), a.1),
        }
    }
}

/// A length decision over levels in the order given, with the custom
/// implementation `c`: `fmt_len`'s text when every level below is printed by
/// length decisions and the indentation fits; otherwise the arms as `given_arms`
/// prints them.
pub open spec fn gen_len_any<C: CustomCondition>(c: C, cs: Seq<ConditionNode>, w: usize, s: Seq<char>) -> (
    Result<usize, Seq<char>>,
    Seq<char>,
) {
    if levels_fmt_ok(cs) && fmt_len(w as nat, cs.reverse()).peak <= usize::MAX {
        (Ok(w), s + fmt_len(w as nat, cs.reverse()).text)
    } else if w >= usize::MAX - 1 {
        (Err(deep_text()), s)
    } else {
        let s1 = s + line(w as nat, "let l = route.len();"@) + line(w as nat, "match l {"@);
        let a = given_arms(c, cs, (w + 1) as usize, 0, s1);
        match a.0 {
            Ok(()) => (Ok(w), a.1 + line((w + 1) as nat, "_ => {}"@) + line(w as nat, "}"@)),
            Err(e) => (Err(e), a.1),
        }
    }
}

/// The error for an indentation out of range.
fn too_deep() -> (e: String)
    ensures
        e@ == deep_text(),
{
    let e = String::from_str("Indentation out of range");
    proof {
        reveal_strlit("Indentation out of range");
    }
    e
}

/// Appends the length decision over the levels of a kind: one arm per level of
/// that kind under a length condition, the last first.
fn length_group<C: CustomCondition>(writer: &mut String, w: usize, cs: &Vec<ConditionNode>, k: &str, custom: &C) -> (r:
    Result<(), String>)
    requires
        forall|j: int|
            0 <= j < cs@.len() && kind_text((#[trigger] cs@[j]).condition) == k@ && cs@[j].condition is Length
                ==> formattable(cs@[j].children@),
    ensures
        (unit_view(r), final(writer)@) == length_group_spec(*custom, cs@, k@, w, old(writer)@),
    decreases cs@, 4nat,
{
    if w >= usize::MAX - 1 {
        return Err(too_deep());
    }
    push_line(writer, w, "let l = route.len();");
    push_line(writer, w, "match l {");
    let ghost s1 = writer@;
    let mut j: usize = cs.len();
    while j > 0
        invariant
            j <= cs@.len(),
            w < usize::MAX - 1,
            forall|i: int|
                0 <= i < cs@.len() && kind_text((#[trigger] cs@[i]).condition) == k@ && cs@[i].condition is Length
                    ==> formattable(cs@[i].children@),
            s1 == old(writer)@ + line(w as nat, "let l = route.len();"@) + line(w as nat, "match l {"@),
            group_arms(*custom, cs@, k@, (w + 1) as usize, cs@.len() as int, s1) == group_arms(
                *custom,
                cs@,
                k@,
                (w + 1) as usize,
                j as int,
                writer@,
            ),
        decreases j,
    {
        let t = cs[j - 1].condition.get_type();
        if crate::text::str_eq(t.as_str(), k) {
            assert(kind_text(cs@[j - 1].condition) == k@);
            match length_arm_any(writer, w + 1, &cs[j - 1], custom) {
                Ok(()) => {},
                Err(e) => {
                    return Err(e);
                },
            }
        }
        j = j - 1;
    }
    push_line(writer, w + 1, "_ => {}");
    push_line(writer, w, "}");
    Ok(())
}

/// Appends one arm of a length decision for a level under a length condition,
/// the level printed one deeper; nothing for another level.
fn length_arm_any<C: CustomCondition>(writer: &mut String, w: usize, n: &ConditionNode, custom: &C) -> (r: Result<
    (),
    String,
>)
    requires
        n.condition is Length ==> formattable(n.children@),
    ensures
        (unit_view(r), final(writer)@) == arm_spec(*custom, w, *n, old(writer)@),
    decreases *n, 3nat,
{
    match &n.condition {
        ConditionType::Length(l) => {
            if w == usize::MAX {
                return Err(too_deep());
            }
            push_indent(writer, w);
            push_decimal(writer, *l as u64);
            writer.append(" => {");
            push_char(writer, '\n');
            assert(writer@ =~= old(writer)@ + line(w as nat, decimal(*l as nat) + " => {"@));
            match Format::format_r(writer, w + 1, &n.stored_routes, &n.children, custom) {
                Ok(()) => {},
                Err(e) => {
                    return Err(e);
                },
            }
            push_line(writer, w, "},");
            Ok(())
        },
        _ => Ok(()),
    }
}

impl ConditionType {
    /// Prints the decision for levels under conditions of this kind and returns
    /// the indentation after it. A length decision has an arm per level under a
    /// length condition, in the order given, the others skipped; a custom
    /// condition's decision is handed to `custom`, the implementation of that
    /// condition, whose text and result are passed on as they come. Fails for no
    /// levels.
    pub fn gen_code<C: CustomCondition>(
        &self,
        nodes: &Vec<ConditionNode>,
        indent: usize,
        writer: &mut String,
        custom: &C,
    ) -> (r: Result<usize, String>)
        requires
            nodes@.len() > 0 ==> match self {
                ConditionType::Length(_) => levels_formattable(nodes@),
                ConditionType::Custom(_) => true,
                _ => false,
            },
        ensures
            nodes@.len() == 0 ==> (r matches Err(e) && e@ == "No Nodes generate code for"@),
            nodes@.len() == 0 ==> final(writer)@ == old(writer)@,
            nodes@.len() > 0 && self is Length && levels_fmt_ok(nodes@) && fmt_len(indent as nat, nodes@.reverse()).peak
                <= usize::MAX ==> r == Ok::<usize, String>(indent) && final(writer)@ == old(writer)@ + fmt_len(
                indent as nat,
                nodes@.reverse(),
            ).text,
            nodes@.len() > 0 && self is Length ==> (result_view(r), final(writer)@) == gen_len_any(
                *custom,
                nodes@,
                indent,
                old(writer)@,
            ),
            nodes@.len() > 0 && self is Custom ==> (result_view(r), final(writer)@) == custom.gen_spec(
                cviews(nodes@),
                indent,
                old(writer)@,
            ),
    {
        if nodes.len() == 0 {
            return Err(String::from_str("No Nodes generate code for"));
        }
        match self {
            ConditionType::Custom(_) => custom.gen_code(nodes, indent, writer),
            _ => {
                let ghost rc = nodes@.reverse();
                if check_levels_fmt_ok(nodes) {
                    match peak_given(indent, nodes) {
                        Some(_) => {
                            proof {
                                lemma_fmt_len_unfold(indent as nat, rc);
                                lemma_len_arms_peak((indent + 1) as nat, rc);
                            }
                            push_line(writer, indent, "let l = route.len();");
                            push_line(writer, indent, "match l {");
                            length_arms_given(writer, indent + 1, nodes);
                            push_line(writer, indent + 1, "_ => {}");
                            push_line(writer, indent, "}");
                            assert(writer@ =~= old(writer)@ + fmt_len(indent as nat, rc).text);
                            return Ok(indent);
                        },
                        None => {},
                    }
                }
                let ghost exact = levels_fmt_ok(nodes@) && fmt_len(indent as nat, rc).peak <= usize::MAX;
                assert(!exact);
                if indent >= usize::MAX - 1 {
                    return Err(too_deep());
                }
                push_line(writer, indent, "let l = route.len();");
                push_line(writer, indent, "match l {");
                let ghost s1 = writer@;
                let mut j: usize = 0;
                while j < nodes.len()
                    invariant
                        indent < usize::MAX - 1,
                        levels_formattable(nodes@),
                        s1 == old(writer)@ + line(indent as nat, "let l = route.len();"@) + line(
                            indent as nat,
                            "match l {"@,
                        ),
                        given_arms(*custom, nodes@, (indent + 1) as usize, 0, s1) == given_arms(
                            *custom,
                            nodes@,
                            (indent + 1) as usize,
                            j as int,
                            writer@,
                        ),
                        !(self is Custom),
                        !exact,
                        rc == nodes@.reverse(),
                        exact == (levels_fmt_ok(nodes@) && fmt_len(indent as nat, rc).peak <= usize::MAX),
                    decreases nodes.len() - j,
                {
                    assert(nodes@[j as int].condition is Length ==> formattable(nodes@[j as int].children@));
                    match length_arm_any(writer, indent + 1, &nodes[j], custom) {
                        Ok(()) => {},
                        Err(e) => {
                            return Err(e);
                        },
                    }
                    j = j + 1;
                }
                push_line(writer, indent + 1, "_ => {}");
                push_line(writer, indent, "}");
                Ok(indent)
            },
        }
    }

    /// Prints the length decision: the length of the route, one arm per length
    /// level (the last listed first), and a fallback arm.
    fn gen_length_code(writer: &mut String, indent: usize, nodes: &Vec<ConditionNode>)
        requires
            fmt_ok(nodes@),
            fmt_len(indent as nat, nodes@).peak <= usize::MAX,
        ensures
            final(writer)@ == old(writer)@ + fmt_len(indent as nat, nodes@).text,
        decreases nodes@, 3nat,
    {
        proof {
            lemma_fmt_len_unfold(indent as nat, nodes@);
            lemma_len_arms_peak((indent + 1) as nat, nodes@);
        }
        push_line(writer, indent, "let l = route.len();");
        push_line(writer, indent, "match l {");
        length_arms(writer, indent + 1, nodes);
        push_line(writer, indent + 1, "_ => {}");
        push_line(writer, indent, "}");
        assert(writer@ =~= old(writer)@ + fmt_len(indent as nat, nodes@).text);
    }
}

/// The Rust router skeleton format.
#[derive(Default, Debug)]
pub struct Format;

impl Format {
    /// Appends the `match` over the routes; nothing for no routes.
    fn route_match(writer: &mut String, indent: usize, routes: &im::Vector<Route>)
        requires
            route_vec(*routes).len() > 0 ==> indent + 1 <= usize::MAX,
        ensures
            final(writer)@ == old(writer)@ + route_match(indent as nat, route_vec(*routes)),
    {
        let ghost rs = route_vec(*routes);
        let n = route_vec_len(routes);
        if n == 0 {
            assert(writer@ =~= old(writer)@ + route_match(indent as nat, rs));
            return;
        }
        push_line(writer, indent, "match route {");
        let mut i: usize = 0;
        proof {
            assert(rs.take(0) =~= Seq::<Route>::empty());
        }
        while i < n
            invariant
                i <= n,
                n == rs.len(),
                rs == route_vec(*routes),
                indent + 1 <= usize::MAX,
                writer@ == old(writer)@ + line(indent as nat, "match route {"@) + route_arms(
                    (indent + 1) as nat,
                    rs.take(i as int),
                ),
            decreases n - i,
        {
            let r = route_vec_get(routes, i);
            let p = r.get_path_str();
            push_indent(writer, indent + 1);
            writer.append("b\"");
            writer.append(p.as_str());
            writer.append("\" => {},");
            push_char(writer, '\n');
            proof {
                assert(rs.take(i + 1).drop_last() =~= rs.take(i as int));
                assert(rs.take(i + 1).last() == *r);
            }
            assert(writer@ =~= old(writer)@ + line(indent as nat, "match route {"@) + route_arms(
                (indent + 1) as nat,
                rs.take(i + 1),
            ));
            i = i + 1;
        }
        assert(rs.take(n as int) =~= rs);
        push_line(writer, indent + 1, "_ => {},");
        assert(writer@ =~= old(writer)@ + route_match(indent as nat, rs));
    }

    /// Appends a level: the `match` over its routes, then, for each kind of
    /// condition among the levels below, in the order the kinds first occur, the
    /// decision of the last level of that kind: a length decision over the levels
    /// of the kind (the last first), or the decision that `custom`, the
    /// implementation of custom conditions, prints for them (the last first), which
    /// gives the indentation after it; then the closing brace. The result and the
    /// text are `any_r`'s; when every level below, at every depth, is printed by
    /// length decisions and the indentation fits, that is `fmt_r`'s text. Fails
    /// with the custom code's error, or when an indentation goes out of range.
    pub fn format_r<C: CustomCondition>(
        writer: &mut String,
        indent: usize,
        routes: &im::Vector<Route>,
        children: &Vec<ConditionNode>,
        custom: &C,
    ) -> (r: Result<(), String>)
        requires
            formattable(children@),
        ensures
            (unit_view(r), final(writer)@) == any_r(*custom, indent, route_vec(*routes), children@, old(writer)@),
            fmt_ok(children@) && fmt_r(indent as nat, route_vec(*routes), children@).peak <= usize::MAX ==> r is Ok
                && final(writer)@ == old(writer)@ + fmt_r(indent as nat, route_vec(*routes), children@).text,
        decreases children@, 5nat,
    {
        let ghost rs = route_vec(*routes);
        let ghost cs = children@;
        let ghost c = *custom;
        let ghost s0 = writer@;
        if check_fmt_ok(children) {
            match peak_r(indent, routes, children) {
                Some(_) => {
                    Format::format_exact(writer, indent, routes, children);
                    return Ok(());
                },
                None => {},
            }
        }
        let ghost exact = fmt_ok(cs) && fmt_r(indent as nat, rs, cs).peak <= usize::MAX;
        assert(!exact);
        let has = route_vec_len(routes) > 0;
        let mut w = indent;
        if has {
            if indent >= usize::MAX - 1 {
                return Err(too_deep());
            }
            Format::route_match(writer, indent, routes);
            w = indent + 1;
        }
        let ghost s1 = writer@;
        let ghost w1 = w;
        if children.len() > 0 {
            if has {
                push_line(writer, w, "_ => {");
                w = w + 1;
            }
            let kinds = kinds_of(children);
            let ghost kv = kinds@.map_values(|t: String| t@);
            let ghost w2 = w;
            let ghost s2 = writer@;
            let mut g: usize = 0;
            while g < kinds.len()
                invariant
                    formattable(children@),
                    cs == children@,
                    c == *custom,
                    kv == kinds@.map_values(|t: String| t@),
                    kv == kinds_in(cs),
                    g <= kinds@.len(),
                    groups_from(c, cs, kv, 0, w2, s2) == groups_from(c, cs, kv, g as int, w, writer@),
                    rs == route_vec(*routes),
                    s0 == old(writer)@,
                    !exact,
                    exact == (fmt_ok(cs) && fmt_r(indent as nat, rs, cs).peak <= usize::MAX),
                    has == (rs.len() > 0),
                    has ==> indent < usize::MAX - 1,
                    s1 == (if has {
                        s0 + route_match(indent as nat, rs)
                    } else {
                        s0
                    }),
                    w1 == (if has {
                        (indent + 1) as usize
                    } else {
                        indent
                    }),
                    s2 == (if has {
                        s1 + line(w1 as nat, "_ => {"@)
                    } else {
                        s1
                    }),
                    w2 == (if has {
                        (w1 + 1) as usize
                    } else {
                        w1
                    }),
                    cs.len() > 0,
                decreases kinds.len() - g,
            {
                let k = kinds[g].as_str();
                assert(kv[g as int] == k@);
                let ghost sg = writer@;
                let ghost wg = w;
                match last_of_kind(children, k) {
                    Some(d) => {
                        assert(decisive(children@, d as int));
                        match &children[d].condition {
                            ConditionType::Length(_) => {
                                proof {
                                    assert forall|j: int|
                                        0 <= j < children@.len() && kind_text(
                                            (#[trigger] children@[j]).condition,
                                        ) == k@ && children@[j].condition is Length implies formattable(
                                        children@[j].children@,
                                    ) by {
                                        if j > d {
                                            assert(kind_text(children@[j].condition) != kind_text(
                                                children@[d as int].condition,
                                            ));
                                        }
                                        assert(length_decided(children@, j));
                                    }
                                }
                                match length_group(writer, w, children, k, custom) {
                                    Ok(()) => {},
                                    Err(e) => {
                                        return Err(e);
                                    },
                                }
                            },
                            ConditionType::Custom(_) => {
                                let group = levels_of_kind(children, k);
                                match custom.gen_code(&group, w, writer) {
                                    Ok(i) => {
                                        w = i;
                                    },
                                    Err(e) => {
                                        return Err(e);
                                    },
                                }
                            },
                            _ => {
                                assert(false);
                            },
                        }
                    },
                    None => {},
                }
                g = g + 1;
            }
        }
        if has {
            if w == 0 {
                return Err(too_deep());
            }
            w = w - 1;
            push_line(writer, w, "}");
        }
        Ok(())
    }

    /// Appends a level whose levels below are all printed by length decisions:
    /// the `match` over its routes, then the decision on the levels below.
    fn format_exact(writer: &mut String, indent: usize, routes: &im::Vector<Route>, children: &Vec<ConditionNode>)
        requires
            fmt_ok(children@),
            fmt_r(indent as nat, route_vec(*routes), children@).peak <= usize::MAX,
        ensures
            final(writer)@ == old(writer)@ + fmt_r(indent as nat, route_vec(*routes), children@).text,
        decreases children@, 5nat,
    {
        let ghost rs = route_vec(*routes);
        let ghost cs = children@;
        proof {
            lemma_fmt_r_unfold(indent as nat, rs, cs);
            lemma_fmt_peaks(indent as nat, rs, cs);
        }
        let has = route_vec_len(routes) > 0;
        Format::route_match(writer, indent, routes);
        if children.len() > 0 {
            let mut w = indent;
            if has {
                push_line(writer, indent + 1, "_ => {");
                w = indent + 2;
            }
            proof {
                lemma_fmt_ok_last(cs);
            }
            ConditionType::gen_length_code(writer, w, children);
            if has {
                push_line(writer, indent + 1, "}");
            }
        } else {
            if has {
                push_line(writer, indent, "}");
            }
        }
        assert(writer@ =~= old(writer)@ + fmt_r(indent as nat, rs, cs).text);
    }

    /// The same for the root level, whose levels below are held in an
    /// `im::Vector`.
    fn format_top(writer: &mut String, indent: usize, routes: &im::Vector<Route>, children: &im::Vector<ConditionNode>)
        requires
            fmt_ok(cnode_vec(*children)),
            fmt_r(indent as nat, route_vec(*routes), cnode_vec(*children)).peak <= usize::MAX,
        ensures
            final(writer)@ == old(writer)@ + fmt_r(indent as nat, route_vec(*routes), cnode_vec(*children)).text,
    {
        let ghost rs = route_vec(*routes);
        let ghost cs = cnode_vec(*children);
        proof {
            lemma_fmt_r_unfold(indent as nat, rs, cs);
            lemma_fmt_peaks(indent as nat, rs, cs);
        }
        let has = route_vec_len(routes) > 0;
        Format::route_match(writer, indent, routes);
        if cnode_vec_len(children) > 0 {
            let mut w = indent;
            if has {
                push_line(writer, indent + 1, "_ => {");
                w = indent + 2;
            }
            length_decision_top(writer, w, children);
            if has {
                push_line(writer, indent + 1, "}");
            }
        } else {
            if has {
                push_line(writer, indent, "}");
            }
        }
        assert(writer@ =~= old(writer)@ + fmt_r(indent as nat, rs, cs).text);
    }
}

/// A generator: the tree to print, the indentation level, and the text so far.
pub struct Generator {
    pub indent: usize,
    pub tree: ConditionTree,
    pub writer: String,
}

/// A way of printing a condition tree.
pub trait GeneratorFormat: Sized {
    /// Whether this format can print a tree at an indentation level.
    spec fn accepts(&self, t: TreeView, indent: nat) -> bool;

    /// Whether what this format prints for a tree is known in advance.
    spec fn exact(&self, t: TreeView, indent: nat) -> bool;

    /// What this format prints for a tree at an indentation level, when it is known.
    spec fn output(&self, t: TreeView, indent: nat) -> Seq<char>;

    fn format(&mut self, g: &mut Generator) -> (r: Result<(), String>)
        requires
            old(self).accepts(old(g).tree@, old(g).indent as nat),
        ensures
            old(self).exact(old(g).tree@, old(g).indent as nat) ==> r is Ok && final(g).writer@ == old(g).writer@
                + old(self).output(old(g).tree@, old(g).indent as nat),
            final(g).indent == old(g).indent,
            final(g).tree@ == old(g).tree@,
    ;
}

/// The text of `route` for a tree: the root level one deeper than `indent`, inside
/// the function's braces.
pub open spec fn route_fn_text(t: TreeView, indent: nat) -> Seq<char> {
    "#[inline(always)]\npub fn route(method: u8, route: &[u8]) {\n"@ + fmt_r(indent + 1, t.stored, t.children).text
        + line(indent, "}"@)
}

impl GeneratorFormat for Format {
    open spec fn accepts(&self, t: TreeView, indent: nat) -> bool {
        &&& fmt_ok(t.children)
        &&& fmt_r(indent + 1, t.stored, t.children).peak <= usize::MAX
    }

    open spec fn exact(&self, t: TreeView, indent: nat) -> bool {
        true
    }

    open spec fn output(&self, t: TreeView, indent: nat) -> Seq<char> {
        route_fn_text(t, indent)
    }

    /// Prints `route`: the root level one deeper than the generator's indentation,
    /// inside the function's braces; every level is printed by length decisions.
    fn format(&mut self, g: &mut Generator) -> (r: Result<(), String>) {
        g.writer.append("#[inline(always)]\npub fn route(method: u8, route: &[u8]) {\n");
        proof {
            lemma_fmt_peaks((g.indent + 1) as nat, g.tree@.stored, g.tree@.children);
        }
        g.indent = g.indent + 1;
        Format::format_top(&mut g.writer, g.indent, g.tree.get_routes(), g.tree.get_children());
        g.indent = g.indent - 1;
        push_line(&mut g.writer, g.indent, "}");
        Ok(())
    }
}

/// The text of `route` for a tree with the custom implementation `c`, from the
/// text `s`: the root level printed as `any_r` prints it, one deeper than
/// `indent`, inside the function's braces.
pub open spec fn route_fn_any<C: CustomCondition>(c: C, t: TreeView, indent: usize, s: Seq<char>) -> (
    Result<(), Seq<char>>,
    Seq<char>,
) {
    let x = any_r(
        c,
        (indent + 1) as usize,
        t.stored,
        t.children,
        s + "#[inline(always)]\npub fn route(method: u8, route: &[u8]) {\n"@,
    );
    match x.0 {
        Ok(()) => (Ok(()), x.1 + line(indent as nat, "}"@)),
        Err(e) => (Err(e), x.1),
    }
}

/// The router skeleton format for trees with custom conditions: `custom` is the
/// implementation that prints their decisions.
pub struct CustomFormat<C: CustomCondition> {
    pub custom: C,
}

impl<C: CustomCondition> GeneratorFormat for CustomFormat<C> {
    open spec fn accepts(&self, t: TreeView, indent: nat) -> bool {
        formattable(t.children)
    }

    open spec fn exact(&self, t: TreeView, indent: nat) -> bool {
        &&& fmt_ok(t.children)
        &&& fmt_r(indent + 1, t.stored, t.children).peak <= usize::MAX
    }

    open spec fn output(&self, t: TreeView, indent: nat) -> Seq<char> {
        route_fn_text(t, indent)
    }

    /// Prints `route` as `Format` does, handing the decisions of custom levels to
    /// the custom implementation (see `Format::format_r`). Fails with the custom
    /// code's error, or when an indentation goes out of range.
    fn format(&mut self, g: &mut Generator) -> (r: Result<(), String>)
        ensures
            old(g).indent == usize::MAX ==> (r matches Err(e) && e@ == deep_text()) && final(g).writer@
                == old(g).writer@,
            old(g).indent < usize::MAX ==> (unit_view(r), final(g).writer@) == route_fn_any(
                old(self).custom,
                old(g).tree@,
                old(g).indent,
                old(g).writer@,
            ),
    {
        let ghost t0 = g.tree@;
        proof {
            lemma_fmt_peaks((g.indent + 1) as nat, g.tree@.stored, g.tree@.children);
        }
        if g.indent == usize::MAX {
            return Err(too_deep());
        }
        g.writer.append("#[inline(always)]\npub fn route(method: u8, route: &[u8]) {\n");
        let cs = g.tree.take_children();
        let r = Format::format_r(&mut g.writer, g.indent + 1, g.tree.get_routes(), &cs, &self.custom);
        g.tree.restore_children(cs);
        assert(g.tree@.children =~= t0.children);
        match r {
            Ok(()) => {},
            Err(e) => {
                return Err(e);
            },
        }
        push_line(&mut g.writer, g.indent, "}");
        Ok(())
    }
}

impl Generator {
    /// A generator for a tree, at no indentation, appending to `writer`.
    pub fn new(tree: ConditionTree, writer: String) -> (g: Generator)
        ensures
            g.indent == 0,
            g.tree == tree,
            g.writer == writer,
    {
        Generator { indent: 0, tree, writer }
    }

    /// Appends the indentation for a level: four spaces per level.
    pub fn indent(indent: usize, writer: &mut String)
        ensures
            final(writer)@ == old(writer)@ + crate::text::indent_text(indent as nat),
    {
        push_indent(writer, indent);
    }

    /// Prints the tree with a default-made format.
    pub fn default_to<F: GeneratorFormat + Default>(&mut self) -> (r: Result<(), String>)
        requires
            forall|f: F| #[trigger] f.accepts(old(self).tree@, old(self).indent as nat),
        ensures
            (forall|f: F| #[trigger] f.exact(old(self).tree@, old(self).indent as nat)) ==> r is Ok && exists|f: F|
                final(self).writer@ == old(self).writer@ + #[trigger] f.output(old(self).tree@, old(self).indent as nat),
            final(self).indent == old(self).indent,
            final(self).tree@ == old(self).tree@,
    {
        let mut f = F::default();
        assert(f.accepts(self.tree@, self.indent as nat));
        let ghost f0 = f;
        let r = self.to(&mut f);
        assert(f0.exact(old(self).tree@, old(self).indent as nat) ==> final(self).writer@ == old(self).writer@
            + f0.output(old(self).tree@, old(self).indent as nat));
        r
    }

    /// Prints the tree with a format.
    pub fn to<F: GeneratorFormat>(&mut self, formatter: &mut F) -> (r: Result<(), String>)
        requires
            old(formatter).accepts(old(self).tree@, old(self).indent as nat),
        ensures
            old(formatter).exact(old(self).tree@, old(self).indent as nat) ==> r is Ok && final(self).writer@
                == old(self).writer@ + old(formatter).output(old(self).tree@, old(self).indent as nat),
            final(self).indent == old(self).indent,
            final(self).tree@ == old(self).tree@,
    {
        formatter.format(self)
    }
}

/// The arm of a route `match` for one route: its path as a byte string.
pub open spec fn route_arm(w: nat, r: Route) -> Seq<char> {
    line(w, "b\""@ + path_text(r@.path) + "\" => {},"@)
}

proof fn lemma_route_arms_have(w: nat, rs: Seq<Route>, j: int)
    requires
        0 <= j < rs.len(),
    ensures
        occurs_at(route_arms(w, rs), route_arms(w, rs.take(j)).len() as int, route_arm(w, rs[j])),
    decreases rs.len(),
{
    let prev = route_arms(w, rs.drop_last());
    let last = route_arm(w, rs.last());
    assert(route_arms(w, rs) =~= prev + last);
    if j == rs.len() - 1 {
        assert(rs.take(j) =~= rs.drop_last());
        lemma_occurs_self(last);
        lemma_occurs_right(prev, last, 0, last);
    } else {
        lemma_route_arms_have(w, rs.drop_last(), j);
        assert(rs.drop_last()[j] == rs[j]);
        assert(rs.drop_last().take(j) =~= rs.take(j));
        lemma_occurs_left(prev, last, route_arms(w, rs.take(j)).len() as int, route_arm(w, rs[j]));
    }
}

proof fn lemma_route_arms_grow(w: nat, rs: Seq<Route>, i: int, j: int)
    requires
        0 <= i < j <= rs.len(),
    ensures
        route_arms(w, rs.take(i)).len() + route_arm(w, rs[i]).len() <= route_arms(w, rs.take(j)).len(),
    decreases j,
{
    let t = rs.take(j);
    assert(t.drop_last() =~= rs.take(j - 1));
    assert(t.last() == rs[j - 1]);
    assert(route_arms(w, t) =~= route_arms(w, rs.take(j - 1)) + route_arm(w, rs[j - 1]));
    if i < j - 1 {
        lemma_route_arms_grow(w, rs, i, j - 1);
    }
}

/// Where the arm of route `i` stands in the `match` over a level's routes.
pub open spec fn arm_pos(w: nat, rs: Seq<Route>, i: int) -> int {
    (line(w, "match route {"@).len() + route_arms(w + 1, rs.take(i)).len()) as int
}

/// The `match` printed over a level's routes has an arm for every one of them,
/// matching that route's path, one level deeper than the `match`, in the order of
/// the routes: the arm of an earlier route ends before the arm of a later one.
pub proof fn law_route_match_covers_every_route(w: nat, rs: Seq<Route>, i: int, j: int)
    requires
        0 <= i < rs.len(),
    ensures
        occurs_at(route_match(w, rs), arm_pos(w, rs, i), route_arm(w + 1, rs[i])),
        i < j < rs.len() ==> arm_pos(w, rs, i) + route_arm(w + 1, rs[i]).len() <= arm_pos(w, rs, j),
{
    let a = line(w, "match route {"@);
    let b = route_arms(w + 1, rs);
    let c = line(w + 1, "_ => {},"@);
    assert(route_match(w, rs) =~= a + b + c);
    lemma_route_arms_have(w + 1, rs, i);
    let q = route_arms(w + 1, rs.take(i)).len() as int;
    lemma_occurs_right(a, b, q, route_arm(w + 1, rs[i]));
    lemma_occurs_left(a + b, c, a.len() + q, route_arm(w + 1, rs[i]));
    if i < j && j < rs.len() {
        lemma_route_arms_grow(w + 1, rs, i, j);
    }
}

/// The length a length condition tests; zero for another condition.
pub open spec fn length_of(c: ConditionType) -> nat {
    match c {
        ConditionType::Length(l) => l as nat,
        _ => 0,
    }
}

proof fn lemma_len_arms_have(w: nat, cs: Seq<ConditionNode>, j: int) -> (p: int)
    requires
        0 <= j < cs.len(),
    ensures
        occurs_at(len_arms(w, cs).text, p, len_arm(w, cs[j]).text),
    decreases cs.len(),
{
    lemma_len_arms_step(w, cs);
    let a = len_arm(w, cs.last());
    let b = len_arms(w, cs.drop_last());
    if j == cs.len() - 1 {
        lemma_occurs_self(a.text);
        lemma_occurs_left(a.text, b.text, 0, a.text);
        0
    } else {
        let q = lemma_len_arms_have(w, cs.drop_last(), j);
        assert(cs.drop_last()[j] == cs[j]);
        lemma_occurs_right(a.text, b.text, q, len_arm(w, cs[j]).text);
        a.text.len() + q
    }
}

/// A printed length decision has an arm for every level under a length
/// condition, one level deeper than the decision: the length followed by
/// ` => {`, the level printed, and the closing `},`.
pub proof fn law_length_decision_covers_every_level(w: nat, cs: Seq<ConditionNode>, i: int)
    requires
        0 <= i < cs.len(),
        cs[i].condition is Length,
    ensures
        exists|p: int| #[trigger] occurs_at(fmt_len(w, cs).text, p, len_arm(w + 1, cs[i]).text),
        len_arm(w + 1, cs[i]).text == line(w + 1, decimal(length_of(cs[i].condition)) + " => {"@) + fmt_r(
            w + 2,
            route_vec(cs[i].stored_routes),
            cs[i].children@,
        ).text + line(w + 1, "},"@),
{
    lemma_fmt_len_unfold(w, cs);
    lemma_len_arm_unfold(w + 1, cs[i]);
    let arms = len_arms(w + 1, cs);
    let head = line(w, "let l = route.len();"@) + line(w, "match l {"@);
    let tail = line(w + 1, "_ => {}"@) + line(w, "}"@);
    assert(fmt_len(w, cs).text =~= head + arms.text + tail);
    let q = lemma_len_arms_have(w + 1, cs, i);
    let piece = len_arm(w + 1, cs[i]).text;
    lemma_occurs_right(head, arms.text, q, piece);
    lemma_occurs_left(head + arms.text, tail, head.len() + q, piece);
    assert(occurs_at(fmt_len(w, cs).text, head.len() + q, piece));
}

} // verus!
