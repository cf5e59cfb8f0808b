//! The Rust output adapter: emits the router as nested `match` statements over the
//! route bytes and their length, dispatching on the method bits to stacks.
use vstd::prelude::*;
use crate::collections::{groute_vec, groute_vec_get, groute_vec_len, stack_vec, stack_vec_get, stack_vec_len};
use crate::condition::ConditionType;
use crate::ctx::OmnicomCtx;
use crate::gentree::{groutes_view, GenNode, GenRoute, GenRouteView, GenTree};
use crate::http::Method;
use crate::languages::adapter::{deps_view, Adapter, OutAdapter, OutWriteContext};
use crate::text::{
    decimal, lemma_occurs_left, lemma_occurs_right, lemma_occurs_self, line, occurs_at, push_char, push_decimal,
    push_indent, push_line,
};
use vstd::arithmetic::power2::{lemma2_to64, lemma2_to64_rest, lemma_pow2_unfold, pow2};

verus! {

/// The Rust output adapter.
#[derive(Default)]
pub struct RustAdapter;

impl Adapter for RustAdapter {
    fn get_name(&self) -> (r: &'static str)
        ensures
            r@ == "RustAdapter"@,
    {
        "RustAdapter"
    }

    fn get_flags(&self) -> (r: u8)
        ensures
            r == 0,
    {
        0
    }
}

/// Digit `i` of `x` written with `w` binary digits, counted from the most
/// significant.
pub open spec fn bin_digit(x: u64, w: nat, i: int) -> char {
    if (x >> ((w - 1 - i) as u64)) & 1u64 == 1u64 {
        '1'
    } else {
        '0'
    }
}

/// `x` written with `w` binary digits, zero-padded.
pub open spec fn bin_digits(x: u64, w: nat) -> Seq<char> {
    Seq::new(w, |i: int| bin_digit(x, w, i))
}

/// Digits in groups of four from the left, the groups separated by `_`.
pub open spec fn grouped(ds: Seq<char>) -> Seq<char> {
    Seq::new(
        (ds.len() + ds.len() / 4 - 1) as nat,
        |k: int|
            if k % 5 == 4 {
                '_'
            } else {
                ds[(k / 5) * 4 + k % 5]
            },
    )
}

/// A grouped body with its separators taken out.
pub open spec fn ungrouped(g: Seq<char>) -> Seq<char> {
    Seq::new(((g.len() + 1) * 4 / 5) as nat, |i: int| g[(i / 4) * 5 + i % 4])
}

/// `x` as a Rust binary literal of `w` digits: `0b`, then the digits in groups of
/// four separated by `_`.
pub open spec fn binary_literal(x: u64, w: nat) -> Seq<char> {
    "0b"@ + grouped(bin_digits(x, w))
}

/// A 32-bit value as a Rust binary literal.
pub open spec fn bin_text(x: u32) -> Seq<char> {
    binary_literal(x as u64, 32)
}

/// The value binary digits denote.
pub open spec fn digits_value(ds: Seq<char>) -> nat
    decreases ds.len(),
{
    if ds.len() == 0 {
        0
    } else {
        2 * digits_value(ds.drop_last()) + if ds.last() == '1' {
            1nat
        } else {
            0nat
        }
    }
}

/// An unsigned integer type that can be written as a binary literal: its value
/// and its number of bits.
pub trait BinaryValue {
    spec fn value(&self) -> u64;

    spec fn width() -> nat;

    fn to_u64(&self) -> (r: u64)
        ensures
            r == self.value(),
            (r as nat) < pow2(Self::width()),
    ;

    fn bit_width() -> (w: u32)
        ensures
            w as nat == Self::width(),
            4 <= w <= 64,
            w % 4 == 0,
    ;
}

impl BinaryValue for u8 {
    open spec fn value(&self) -> u64 {
        *self as u64
    }

    open spec fn width() -> nat {
        8
    }

    fn to_u64(&self) -> (r: u64) {
        proof {
            lemma2_to64();
        }
        *self as u64
    }

    fn bit_width() -> (w: u32) {
        8
    }
}

impl BinaryValue for u16 {
    open spec fn value(&self) -> u64 {
        *self as u64
    }

    open spec fn width() -> nat {
        16
    }

    fn to_u64(&self) -> (r: u64) {
        proof {
            lemma2_to64();
        }
        *self as u64
    }

    fn bit_width() -> (w: u32) {
        16
    }
}

impl BinaryValue for u32 {
    open spec fn value(&self) -> u64 {
        *self as u64
    }

    open spec fn width() -> nat {
        32
    }

    fn to_u64(&self) -> (r: u64) {
        proof {
            lemma2_to64();
        }
        *self as u64
    }

    fn bit_width() -> (w: u32) {
        32
    }
}

impl BinaryValue for u64 {
    open spec fn value(&self) -> u64 {
        *self
    }

    open spec fn width() -> nat {
        64
    }

    fn to_u64(&self) -> (r: u64) {
        proof {
            lemma2_to64();
            lemma2_to64_rest();
        }
        *self
    }

    fn bit_width() -> (w: u32) {
        64
    }
}

proof fn lemma_digits_drop_last(x: u64, w: nat)
    requires
        1 <= w <= 64,
    ensures
        bin_digits(x, w).drop_last() =~= bin_digits(x >> 1u64, (w - 1) as nat),
        bin_digits(x, w).last() == (if x & 1u64 == 1u64 {
            '1'
        } else {
            '0'
        }),
{
    assert forall|i: int| 0 <= i < w - 1 implies bin_digit(x, w, i) == bin_digit(x >> 1u64, (w - 1) as nat, i) by {
        let s: u64 = (w - 2 - i) as u64;
        assert(s < 63);
        assert((x >> (s + 1)) == ((x >> 1u64) >> s)) by (bit_vector)
            requires
                s < 63,
        ;
        assert(((w - 1 - i) as u64) == s + 1);
    }
    assert(x >> 0u64 == x) by (bit_vector);
}

proof fn lemma_digits_value(x: u64, w: nat)
    requires
        w <= 64,
        (x as nat) < pow2(w),
    ensures
        digits_value(bin_digits(x, w)) == x,
    decreases w,
{
    if w == 0 {
        assert(pow2(0) == 1) by {
            lemma2_to64();
        }
    } else {
        lemma_digits_drop_last(x, w);
        let y = x >> 1u64;
        assert((x >> 1u64) == x / 2) by (bit_vector);
        assert(x & 1u64 == x % 2) by (bit_vector);
        lemma_pow2_unfold(w);
        lemma_digits_value(y, (w - 1) as nat);
        assert(bin_digits(x, w).len() == w);
    }
}

/// Binary literals are exact: a literal of `w` digits (a multiple of four, at most
/// 64) for a value below `2^w` has `2 + w + w / 4 - 1` characters; its body has
/// a `_` exactly every fifth character; taking the separators out gives the `w`
/// digits, which denote the value.
pub proof fn law_binary_literal(x: u64, w: nat)
    requires
        4 <= w <= 64,
        w % 4 == 0,
        (x as nat) < pow2(w),
    ensures
        binary_literal(x, w).len() == 2 + w + w / 4 - 1,
        binary_literal(x, w).take(2) == "0b"@,
        forall|k: int|
            0 <= k < grouped(bin_digits(x, w)).len() ==> ((#[trigger] grouped(bin_digits(x, w))[k] == '_') <==> k % 5
                == 4),
        ungrouped(grouped(bin_digits(x, w))) == bin_digits(x, w),
        digits_value(bin_digits(x, w)) == x,
{
    let ds = bin_digits(x, w);
    let g = grouped(ds);
    assert(g.len() == w + w / 4 - 1);
    assert forall|k: int| 0 <= k < g.len() implies ((#[trigger] g[k] == '_') <==> k % 5 == 4) by {
        if k % 5 != 4 {
            assert(0 <= (k / 5) * 4 + k % 5 < w);
        }
    }
    assert((g.len() + 1) * 4 / 5 == w);
    assert forall|i: int| 0 <= i < w implies #[trigger] ungrouped(g)[i] == ds[i] by {
        let k = (i / 4) * 5 + i % 4;
        assert(0 <= k < g.len());
        assert(k % 5 == i % 4);
        assert(k / 5 == i / 4);
    }
    assert(ungrouped(g) =~= ds);
    lemma_digits_value(x, w);
    reveal_strlit("0b");
    assert(binary_literal(x, w).take(2) =~= "0b"@);
}

/// The call of a stack.
pub open spec fn call_text(id: Seq<char>) -> Seq<char> {
    "let res = "@ + id + ".__s_"@ + id + "();"@
}

/// The further method branches of a stack dispatch.
pub open spec fn stack_branches(w: nat, st: Seq<(u32, Seq<char>)>) -> Seq<char>
    decreases st.len(),
{
    if st.len() == 0 {
        seq![]
    } else {
        stack_branches(w, st.drop_last()) + line(w, "} else if method & "@ + bin_text(st.last().0) + " {"@)
            + line(w + 1, call_text(st.last().1))
    }
}

/// The dispatch of a route on the method: one branch per stack, then a fallback.
pub open spec fn stack_text(w: nat, st: Seq<(u32, Seq<char>)>) -> Seq<char> {
    line(w, "if method & "@ + bin_text(st[0].0) + " {"@) + line(w + 1, call_text(st[0].1))
        + stack_branches(w, st.subrange(1, st.len() as int)) + line(w, "} else {"@) + line(
        w + 1,
        "// Handle 405 Here"@,
    ) + line(w, "}"@)
}

/// The arms of a `match` on the route, one per route.
pub open spec fn route_entries(w: nat, rs: Seq<GenRouteView>) -> Seq<char>
    decreases rs.len(),
{
    if rs.len() == 0 {
        seq![]
    } else {
        route_entries(w, rs.drop_last()) + line(w, "b\""@ + rs.last().path + "\" => {,"@) + stack_text(
            w + 1,
            rs.last().stack,
        ) + line(w, "}"@)
    }
}

/// The modules a set of routes depends on: the first stack of each.
pub open spec fn route_deps(rs: Seq<GenRouteView>) -> Seq<Seq<char>> {
    rs.map_values(|r: GenRouteView| r.stack[0].1)
}

/// The `match` over a level's routes, with a fallback arm; nothing when there are
/// no routes.
pub open spec fn match_text(w: nat, rs: Seq<GenRouteView>) -> Seq<char> {
    if rs.len() > 0 {
        line(w, "match route {"@) + route_entries(w + 1, rs) + line(w + 1, "_ => {"@) + line(
            w + 1,
            "// Handle 404 here"@,
        ) + line(w + 1, "},"@)
    } else {
        seq![]
    }
}

/// Generated text, the indentation level after it, the deepest level used, and the
/// dependencies recorded.
pub struct GenOut {
    pub text: Seq<char>,
    pub indent: nat,
    pub peak: nat,
    pub deps: Seq<Seq<char>>,
}

pub open spec fn max(a: nat, b: nat) -> nat {
    if a >= b {
        a
    } else {
        b
    }
}

/// The code for a level: a `match` over its routes, then the decision on the
/// levels below it. The level opened for the levels below is not closed again, so
/// the indentation after it can be deeper than before.
#[verifier::opaque]
pub open spec fn gen_r(w: nat, rs: Seq<GenRouteView>, cs: Seq<GenNode>) -> GenOut
    decreases cs, 5nat,
{
    let has = rs.len() > 0;
    let t1 = match_text(w, rs);
    let base_peak = if has {
        w + 3
    } else {
        w
    };
    if cs.len() > 0 {
        let w1 = if has {
            w + 1
        } else {
            w
        };
        let t2 = if has {
            line(w1, "_ => {"@)
        } else {
            seq![]
        };
        let w2 = if has {
            w1 + 1
        } else {
            w1
        };
        let g = gen_len(w2, cs);
        let w4: nat = if has {
            (g.indent - 1) as nat
        } else {
            g.indent
        };
        let t4 = if has {
            line(w4, "}"@)
        } else {
            seq![]
        };
        GenOut {
            text: t1 + t2 + g.text + t4,
            indent: w4,
            peak: max(base_peak, g.peak),
            deps: route_deps(rs) + g.deps,
        }
    } else {
        let t4 = if has {
            line(w, "}"@)
        } else {
            seq![]
        };
        GenOut { text: t1 + t4, indent: w, peak: base_peak, deps: route_deps(rs) }
    }
}

/// The decision on path length over levels, the last listed first.
#[verifier::opaque]
pub open spec fn gen_len(w: nat, cs: Seq<GenNode>) -> GenOut
    decreases cs, 4nat,
{
    let items = items_rev(w + 1, cs);
    let wf = items.indent;
    GenOut {
        text: line(w, "let l = route.len();"@) + line(w, "match l {"@) + items.text + line(wf, "_ => {"@)
            + line(wf, "// Handle 404 here"@) + line(wf, "},"@) + line((wf - 1) as nat, "}"@),
        indent: (wf - 1) as nat,
        peak: max(w + 1, items.peak),
        deps: items.deps,
    }
}

/// The arms of a length decision, the last level listed first.
#[verifier::opaque]
pub open spec fn items_rev(w: nat, cs: Seq<GenNode>) -> GenOut
    decreases cs, 3nat,
{
    if cs.len() == 0 {
        GenOut { text: seq![], indent: w, peak: w, deps: seq![] }
    } else {
        let a = item(w, cs.last());
        let b = items_rev(a.indent, cs.drop_last());
        GenOut { text: a.text + b.text, indent: b.indent, peak: max(a.peak, b.peak), deps: a.deps + b.deps }
    }
}

/// One arm of a length decision; a level under another kind of condition adds
/// nothing.
#[verifier::opaque]
pub open spec fn item(w: nat, n: GenNode) -> GenOut
    decreases n, 2nat,
{
    match n.condition {
        Some(ConditionType::Length(l)) => {
            let body = gen_r(w + 1, groutes_view(n.routes), n.children@);
            let wi = (body.indent - 1) as nat;
            GenOut {
                text: line(w, decimal(l as nat) + " => {"@) + body.text + line(wi, "},"@),
                indent: wi,
                peak: max(w + 1, body.peak),
                deps: body.deps,
            }
        },
        _ => GenOut { text: seq![], indent: w, peak: w, deps: seq![] },
    }
}

/// One module declaration per dependency.
pub open spec fn mod_lines(deps: Seq<Seq<char>>) -> Seq<char>
    decreases deps.len(),
{
    if deps.len() == 0 {
        seq![]
    } else {
        mod_lines(deps.drop_last()) + "mod "@ + deps.last() + ";\n"@
    }
}

/// The module declarations and a blank line, or nothing when there are no
/// dependencies.
pub open spec fn mods_text(deps: Seq<Seq<char>>) -> Seq<char> {
    if deps.len() > 0 {
        mod_lines(deps) + seq!['\n']
    } else {
        seq![]
    }
}

/// The router file for a root level's routes and the levels below it.
pub open spec fn router_text(rs: Seq<GenRouteView>, cs: Seq<GenNode>) -> Seq<char> {
    let g = gen_r(1, rs, cs);
    mods_text(g.deps) + "pub fn route(method: u32, route: &[u8]) {\n"@ + g.text + "}\n"@
}

/// Whether a level is under a length condition.
pub open spec fn is_length(c: Option<ConditionType>) -> bool {
    match c {
        Some(ConditionType::Length(_)) => true,
        _ => false,
    }
}

/// The type name of a condition.
pub open spec fn cond_type_text(c: ConditionType) -> Seq<char> {
    match c {
        ConditionType::SegmentCount(_) => "SegmentCount"@,
        ConditionType::Length(_) => "Length"@,
        ConditionType::Prefix(_) => "Prefix"@,
        ConditionType::Custom(k) => k.kind@,
    }
}

/// The levels below can be generated: each has a condition, all share the type of
/// a length condition, and the last one is a length condition (only length
/// decisions are generated); the same holds below every length level.
#[verifier::opaque]
pub open spec fn generable(cs: Seq<GenNode>) -> bool
    decreases cs,
{
    &&& forall|i: int| 0 <= i < cs.len() ==> (#[trigger] cs[i]).condition is Some
    &&& forall|i: int| 0 <= i < cs.len() ==> cond_type_text((#[trigger] cs[i]).condition->0) == "Length"@
    &&& cs.len() > 0 ==> is_length(cs.last().condition)
    &&& forall|i: int|
        0 <= i < cs.len() ==> (is_length((#[trigger] cs[i]).condition)
            ==> generable(cs[i].children@))
}

/// Below every level under a length condition, the levels can be generated.
pub open spec fn levels_generable(cs: Seq<GenNode>) -> bool {
    forall|i: int| 0 <= i < cs.len() && is_length((#[trigger] cs[i]).condition) ==> generable(cs[i].children@)
}

/// Every route that generation reaches has at least one stack.
#[verifier::opaque]
pub open spec fn stacked(rs: Seq<GenRouteView>, cs: Seq<GenNode>) -> bool
    decreases cs,
{
    &&& forall|i: int| 0 <= i < rs.len() ==> (#[trigger] rs[i]).stack.len() > 0
    &&& forall|i: int|
        0 <= i < cs.len() ==> (is_length((#[trigger] cs[i]).condition)
            ==> stacked(groutes_view(cs[i].routes), cs[i].children@))
}

pub proof fn lemma_gen_r(w: nat, rs: Seq<GenRouteView>, cs: Seq<GenNode>)
    ensures
        gen_r(w, rs, cs).indent >= w,
        gen_r(w, rs, cs).peak >= gen_r(w, rs, cs).indent,
        gen_r(w, rs, cs).peak >= w,
    decreases cs, 5nat,
{
    reveal(gen_r);
    reveal(gen_len);
    reveal(items_rev);
    reveal(item);
    if cs.len() > 0 {
        let w2 = if rs.len() > 0 {
            w + 2
        } else {
            w
        };
        lemma_gen_len(w2, cs);
    }
}

pub proof fn lemma_gen_len(w: nat, cs: Seq<GenNode>)
    ensures
        gen_len(w, cs).indent >= w,
        gen_len(w, cs).peak >= gen_len(w, cs).indent + 1,
        gen_len(w, cs).peak >= w + 1,
    decreases cs, 4nat,
{
    reveal(gen_r);
    reveal(gen_len);
    reveal(items_rev);
    reveal(item);
    lemma_items_rev(w + 1, cs);
}

pub proof fn lemma_items_rev(w: nat, cs: Seq<GenNode>)
    ensures
        items_rev(w, cs).indent >= w,
        items_rev(w, cs).peak >= items_rev(w, cs).indent,
        items_rev(w, cs).peak >= w,
    decreases cs, 3nat,
{
    reveal(gen_r);
    reveal(gen_len);
    reveal(items_rev);
    reveal(item);
    if cs.len() > 0 {
        lemma_item(w, cs.last());
        lemma_items_rev(item(w, cs.last()).indent, cs.drop_last());
    }
}

pub proof fn lemma_item(w: nat, n: GenNode)
    ensures
        item(w, n).indent >= w,
        item(w, n).peak >= item(w, n).indent,
        item(w, n).peak >= w,
    decreases n, 2nat,
{
    reveal(gen_r);
    reveal(gen_len);
    reveal(items_rev);
    reveal(item);
    match n.condition {
        Some(ConditionType::Length(_)) => {
            lemma_gen_r(w + 1, groutes_view(n.routes), n.children@);
        },
        _ => {},
    }
}

/// Appends a method test line: `prefix`, the bits as a binary literal, ` {`.
fn push_test_line(s: &mut String, w: usize, prefix: &str, bits: u32)
    ensures
        final(s)@ == old(s)@ + line(w as nat, prefix@ + bin_text(bits) + " {"@),
{
    push_indent(s, w);
    s.append(prefix);
    let b = RustAdapter::format_binary(bits);
    s.append(b.as_str());
    s.append(" {");
    push_char(s, '\n');
    assert(s@ =~= old(s)@ + line(w as nat, prefix@ + bin_text(bits) + " {"@));
}

/// Appends the call of a stack.
fn push_call_line(s: &mut String, w: usize, id: &str)
    ensures
        final(s)@ == old(s)@ + line(w as nat, call_text(id@)),
{
    push_indent(s, w);
    s.append("let res = ");
    s.append(id);
    s.append(".__s_");
    s.append(id);
    s.append("();");
    push_char(s, '\n');
    assert(s@ =~= old(s)@ + line(w as nat, call_text(id@)));
}

impl RustAdapter {
    /// `x` as a Rust binary literal: `0b`, then all the digits of its type's
    /// width, zero-padded, in groups of four separated by `_`.
    pub fn format_binary<T: BinaryValue>(x: T) -> (s: String)
        ensures
            s@ == binary_literal(x.value(), T::width()),
    {
        let v = x.to_u64();
        let w = T::bit_width();
        let n: u32 = w + w / 4 - 1;
        let ghost ds = bin_digits(v, w as nat);
        let ghost g = grouped(ds);
        assert(g.len() == n);
        let mut s = String::from_str("0b");
        let mut k: u32 = 0;
        while k < n
            invariant
                k <= n,
                n == w + w / 4 - 1,
                4 <= w <= 64,
                w % 4 == 0,
                ds == bin_digits(v, w as nat),
                g == grouped(ds),
                g.len() == n,
                s@ == "0b"@ + g.take(k as int),
            decreases n - k,
        {
            if k % 5 == 4 {
                push_char(&mut s, '_');
            } else {
                let i: u32 = (k / 5) * 4 + k % 5;
                assert(i < w);
                let sh: u64 = (w - 1 - i) as u64;
                assert(g[k as int] == bin_digit(v, w as nat, i as int));
                if (v >> sh) & 1 == 1 {
                    push_char(&mut s, '1');
                } else {
                    push_char(&mut s, '0');
                }
            }
            assert(s@ =~= "0b"@ + g.take(k + 1));
            k = k + 1;
        }
        assert(g.take(n as int) =~= g);
        s
    }

    /// Appends one arm of the route `match`: the route's path, its dispatch, the
    /// closing brace. Fails when the route has no stack.
    fn push_route_arm(&mut self, wctx: &mut OutWriteContext, r: &GenRoute) -> (res: Result<(), String>)
        requires
            old(wctx).w_indent + 2 <= usize::MAX,
        ensures
            final(wctx).w_indent == old(wctx).w_indent,
            match res {
                Ok(()) => r@.stack.len() > 0 && final(wctx).writer@ == old(wctx).writer@ + line(
                    old(wctx).w_indent as nat,
                    "b\""@ + r@.path + "\" => {,"@,
                ) + stack_text((old(wctx).w_indent + 1) as nat, r@.stack) + line(
                    old(wctx).w_indent as nat,
                    "}"@,
                ) && deps_view(final(wctx).deps) == deps_view(old(wctx).deps).push(r@.stack[0].1),
                Err(e) => r@.stack.len() == 0 && e@ == "Unable to generate stack router"@,
            },
    {
        let w = wctx.w_indent;
        push_indent(&mut wctx.writer, w);
        wctx.writer.append("b\"");
        wctx.writer.append(r.get_path());
        wctx.writer.append("\" => {,");
        push_char(&mut wctx.writer, '\n');
        assert(wctx.writer@ =~= old(wctx).writer@ + line(w as nat, "b\""@ + r@.path + "\" => {,"@));
        wctx.w_indent = w + 1;
        let res = self.generate_route(wctx, r);
        wctx.w_indent = w;
        match res {
            Ok(_) => {
                push_line(&mut wctx.writer, w, "}");
                assert(wctx.writer@ =~= old(wctx).writer@ + line(w as nat, "b\""@ + r@.path + "\" => {,"@)
                    + stack_text((w + 1) as nat, r@.stack) + line(w as nat, "}"@));
                Ok(())
            },
            Err(e) => Err(e),
        }
    }

    /// Appends the `match` over a level's routes (nothing when there are none) and
    /// leaves the indentation one level deeper when it wrote one. Fails when a
    /// route has no stack.
    fn push_route_match(&mut self, wctx: &mut OutWriteContext, routes: &im::Vector<GenRoute>) -> (r:
        Result<(), String>)
        requires
            groutes_view(*routes).len() > 0 ==> old(wctx).w_indent + 3 <= usize::MAX,
        ensures
            r is Ok <==> routes_stacked(groutes_view(*routes)),
            r is Ok ==> final(wctx).writer@ == old(wctx).writer@ + match_text(
                old(wctx).w_indent as nat,
                groutes_view(*routes),
            ) && final(wctx).w_indent == old(wctx).w_indent + (if groutes_view(*routes).len() > 0 {
                1int
            } else {
                0int
            }) && deps_view(final(wctx).deps) == deps_view(old(wctx).deps) + route_deps(
                groutes_view(*routes),
            ),
            r matches Err(e) ==> e@ == "Unable to generate stack router"@,
    {
        let ghost w0 = wctx.w_indent as nat;
        let ghost rs = groutes_view(*routes);
        let ghost start = wctx.writer@;
        let ghost deps0 = deps_view(wctx.deps);
        let n = groute_vec_len(routes);
        if n == 0 {
            assert(deps0 + route_deps(rs) =~= deps0);
            assert(start + match_text(w0, rs) =~= start);
            return Ok(());
        }
        push_line(&mut wctx.writer, wctx.w_indent, "match route {");
        wctx.w_indent = wctx.w_indent + 1;
        let mut i: usize = 0;
        proof {
            assert(rs.take(0) =~= Seq::<GenRouteView>::empty());
            assert(route_deps(rs.take(0)) =~= Seq::<Seq<char>>::empty());
        }
        while i < n
            invariant
                i <= n,
                n == rs.len(),
                rs == groutes_view(*routes),
                wctx.w_indent == w0 + 1,
                w0 + 3 <= usize::MAX,
                wctx.writer@ == start + line(w0, "match route {"@) + route_entries(w0 + 1, rs.take(i as int)),
                deps_view(wctx.deps) == deps0 + route_deps(rs.take(i as int)),
                forall|j: int| 0 <= j < i ==> (#[trigger] rs[j]).stack.len() > 0,
            decreases n - i,
        {
            let r = groute_vec_get(routes, i);
            assert(rs[i as int] == r@);
            match self.push_route_arm(wctx, r) {
                Ok(()) => {},
                Err(e) => {
                    return Err(e);
                },
            }
            proof {
                assert(rs.take(i + 1).drop_last() =~= rs.take(i as int));
                assert(rs.take(i + 1).last() == r@);
                assert(wctx.writer@ =~= start + line(w0, "match route {"@) + route_entries(w0 + 1, rs.take(i + 1)));
                assert(route_deps(rs.take(i + 1)) =~= route_deps(rs.take(i as int)).push(r@.stack[0].1));
                assert(deps_view(wctx.deps) =~= deps0 + route_deps(rs.take(i + 1)));
            }
            i = i + 1;
        }
        proof {
            assert(rs.take(n as int) =~= rs);
        }
        push_line(&mut wctx.writer, wctx.w_indent, "_ => {");
        push_line(&mut wctx.writer, wctx.w_indent, "// Handle 404 here");
        push_line(&mut wctx.writer, wctx.w_indent, "},");
        assert(wctx.writer@ =~= start + match_text(w0, rs));
        Ok(())
    }

    /// Appends the code for a level: a `match` over its routes, each dispatching on
    /// the method, and then the decision on the levels below. Fails when a route
    /// that generation reaches has no stack.
    pub fn generate_r(
        &mut self,
        ctx: &mut OmnicomCtx,
        wctx: &mut OutWriteContext,
        routes: &im::Vector<GenRoute>,
        children: &Vec<GenNode>,
    ) -> (r: Result<(), String>)
        requires
            generable(children@),
            gen_r(old(wctx).w_indent as nat, groutes_view(*routes), children@).peak <= usize::MAX,
        ensures
            r is Ok <==> stacked(groutes_view(*routes), children@),
            r is Ok ==> final(wctx).writer@ == old(wctx).writer@ + gen_r(
                old(wctx).w_indent as nat,
                groutes_view(*routes),
                children@,
            ).text && final(wctx).w_indent == gen_r(
                old(wctx).w_indent as nat,
                groutes_view(*routes),
                children@,
            ).indent && deps_view(final(wctx).deps) == deps_view(old(wctx).deps) + gen_r(
                old(wctx).w_indent as nat,
                groutes_view(*routes),
                children@,
            ).deps,
            r matches Err(e) ==> e@ == "Unable to generate stack router"@,
        decreases children@, 6nat,
    {
        let ghost w0 = wctx.w_indent as nat;
        let ghost rs = groutes_view(*routes);
        let ghost cs = children@;
        let ghost g = gen_r(w0, rs, cs);
        let ghost start = wctx.writer@;
        let ghost deps0 = deps_view(wctx.deps);
        proof {
            lemma_gen_r(w0, rs, cs);
            lemma_gen_r_unfold(w0, rs, cs);
        }
        let has = groute_vec_len(routes) > 0;
        match self.push_route_match(wctx, routes) {
            Ok(()) => {},
            Err(e) => {
                proof {
                    lemma_unstacked_routes(rs, cs);
                }
                return Err(e);
            },
        }
        let ghost mid = wctx.writer@;
        let ghost mid_deps = deps_view(wctx.deps);
        if children.len() > 0 {
            if has {
                push_line(&mut wctx.writer, wctx.w_indent, "_ => {");
                wctx.w_indent = wctx.w_indent + 1;
            }
            let ghost w2 = wctx.w_indent as nat;
            let ghost gl = gen_len(w2, cs);
            let ghost before = wctx.writer@;
            proof {
                lemma_gen_len(w2, cs);
            }
            match self.generate_levels(ctx, wctx, children) {
                Ok(w) => {
                    wctx.w_indent = w;
                },
                Err(e) => {
                    proof {
                        lemma_unstacked_child(rs, cs);
                    }
                    return Err(e);
                },
            }
            assert(wctx.writer@ == before + gl.text);
            if has {
                wctx.w_indent = wctx.w_indent - 1;
                push_line(&mut wctx.writer, wctx.w_indent, "}");
            }
            proof {
                lemma_stacked_intro(rs, cs);
                assert(wctx.writer@ =~= start + g.text);
                assert(deps_view(wctx.deps) =~= deps0 + g.deps);
            }
        } else {
            if has {
                wctx.w_indent = wctx.w_indent - 1;
                push_line(&mut wctx.writer, wctx.w_indent, "}");
            }
            proof {
                lemma_stacked_intro(rs, cs);
                assert(wctx.writer@ =~= start + g.text);
                assert(deps_view(wctx.deps) =~= deps0 + g.deps);
            }
        }
        Ok(())
    }

    /// Appends one arm of a length decision: for a level under a length condition,
    /// the length, the code for the level, and the closing brace; nothing for any
    /// other level.
    fn push_length_arm(&mut self, ctx: &mut OmnicomCtx, wctx: &mut OutWriteContext, n: &GenNode) -> (r:
        Result<(), String>)
        requires
            is_length(n.condition) ==> generable(n.children@),
            item(old(wctx).w_indent as nat, *n).peak <= usize::MAX,
        ensures
            r is Ok <==> child_stacked(*n),
            r is Ok ==> final(wctx).writer@ == old(wctx).writer@ + item(old(wctx).w_indent as nat, *n).text
                && final(wctx).w_indent == item(old(wctx).w_indent as nat, *n).indent && deps_view(
                final(wctx).deps,
            ) == deps_view(old(wctx).deps) + item(old(wctx).w_indent as nat, *n).deps,
            r matches Err(e) ==> e@ == "Unable to generate stack router"@,
        decreases *n, 2nat,
    {
        let ghost w0 = wctx.w_indent as nat;
        let ghost a = item(w0, *n);
        let ghost start = wctx.writer@;
        let ghost deps0 = deps_view(wctx.deps);
        proof {
            lemma_item_unfold(w0, *n);
        }
        match &n.condition {
            Some(ConditionType::Length(l)) => {
                let ghost body = gen_r(w0 + 1, groutes_view(n.routes), n.children@);
                proof {
                    lemma_gen_r(w0 + 1, groutes_view(n.routes), n.children@);
                }
                push_indent(&mut wctx.writer, wctx.w_indent);
                push_decimal(&mut wctx.writer, *l as u64);
                wctx.writer.append(" => {");
                push_char(&mut wctx.writer, '\n');
                assert(wctx.writer@ =~= start + line(w0, decimal(*l as nat) + " => {"@));
                wctx.w_indent = wctx.w_indent + 1;
                match self.generate_r(ctx, wctx, &n.routes, &n.children) {
                    Ok(()) => {},
                    Err(e) => {
                        proof {
                            reveal(child_stacked_spec);
                        }
                        return Err(e);
                    },
                }
                wctx.w_indent = wctx.w_indent - 1;
                push_line(&mut wctx.writer, wctx.w_indent, "},");
                proof {
                    reveal(child_stacked_spec);
                    assert(wctx.writer@ =~= start + a.text);
                    assert(deps_view(wctx.deps) =~= deps0 + a.deps);
                }
            },
            _ => {
                proof {
                    reveal(child_stacked_spec);
                    assert(wctx.writer@ =~= start + a.text);
                    assert(deps_view(wctx.deps) =~= deps0 + a.deps);
                }
            },
        }
        Ok(())
    }



    /// Appends the decision over levels that share one kind of condition, the last
    /// listed first, and returns the indentation after it; nothing for no levels.
    /// Only length decisions are generated.
    fn generate_levels(
        &mut self,
        ctx: &mut OmnicomCtx,
        wctx: &mut OutWriteContext,
        children: &Vec<GenNode>,
    ) -> (r: Result<usize, String>)
        requires
            generable(children@),
            children@.len() > 0 ==> gen_len(old(wctx).w_indent as nat, children@).peak <= usize::MAX,
        ensures
            children@.len() == 0 ==> r == Ok::<usize, String>(old(wctx).w_indent) && *final(wctx) == *old(wctx),
            children@.len() > 0 ==> (r is Ok <==> children_stacked(children@)),
            children@.len() > 0 ==> (r matches Ok(w) ==> w == gen_len(old(wctx).w_indent as nat, children@).indent
                && final(wctx).w_indent == w && final(wctx).writer@ == old(wctx).writer@ + gen_len(
                old(wctx).w_indent as nat,
                children@,
            ).text && deps_view(final(wctx).deps) == deps_view(old(wctx).deps) + gen_len(
                old(wctx).w_indent as nat,
                children@,
            ).deps),
            r matches Err(e) ==> e@ == "Unable to generate stack router"@,
        decreases children@, 5nat,
    {
        if children.len() == 0 {
            return Ok(wctx.w_indent);
        }
        self.generate_length(ctx, wctx, children)
    }

    /// Appends the decision on the route's length over levels, the last listed
    /// first, and returns the indentation after it.
    pub fn generate_length(
        &mut self,
        ctx: &mut OmnicomCtx,
        wctx: &mut OutWriteContext,
        children: &Vec<GenNode>,
    ) -> (r: Result<usize, String>)
        requires
            generable(children@),
            gen_len(old(wctx).w_indent as nat, children@).peak <= usize::MAX,
        ensures
            r is Ok <==> children_stacked(children@),
            r matches Ok(w) ==> w == gen_len(old(wctx).w_indent as nat, children@).indent
                && final(wctx).w_indent == w && final(wctx).writer@ == old(wctx).writer@ + gen_len(
                old(wctx).w_indent as nat,
                children@,
            ).text && deps_view(final(wctx).deps) == deps_view(old(wctx).deps) + gen_len(
                old(wctx).w_indent as nat,
                children@,
            ).deps,
            r matches Err(e) ==> e@ == "Unable to generate stack router"@,
        decreases children@, 4nat,
    {
        let ghost w0 = wctx.w_indent as nat;
        let ghost cs = children@;
        let ghost full = items_rev(w0 + 1, cs);
        let ghost start = wctx.writer@;
        let ghost deps0 = deps_view(wctx.deps);
        proof {
            lemma_gen_len(w0, cs);
            lemma_items_rev(w0 + 1, cs);
            lemma_gen_len_unfold(w0, cs);
        }
        push_line(&mut wctx.writer, wctx.w_indent, "let l = route.len();");
        push_line(&mut wctx.writer, wctx.w_indent, "match l {");
        wctx.w_indent = wctx.w_indent + 1;
        let ghost head = wctx.writer@;
        let ghost deps_head = deps_view(wctx.deps);
        let mut k: usize = children.len();
        proof {
            assert(cs.take(k as int) =~= cs);
        }
        while k > 0
            invariant
                k <= cs.len(),
                cs == children@,
                generable(cs),
                full == items_rev(w0 + 1, cs),
                full.peak <= usize::MAX,
                items_rev(wctx.w_indent as nat, cs.take(k as int)).peak <= full.peak,
                items_rev(wctx.w_indent as nat, cs.take(k as int)).indent == full.indent,
                wctx.writer@ + items_rev(wctx.w_indent as nat, cs.take(k as int)).text == head + full.text,
                deps_view(wctx.deps) + items_rev(wctx.w_indent as nat, cs.take(k as int)).deps == deps_head
                    + full.deps,
                forall|j: int| k <= j < cs.len() ==> child_stacked(#[trigger] cs[j]),
            decreases k,
        {
            let n = &children[k - 1];
            let ghost cur = wctx.w_indent as nat;
            let ghost a = item(cur, *n);
            let ghost b = items_rev(a.indent, cs.take(k - 1));
            let ghost before = wctx.writer@;
            let ghost before_deps = deps_view(wctx.deps);
            proof {
                lemma_items_rev_step(cur, cs.take(k as int));
                assert(cs.take(k as int).last() == *n);
                assert(cs.take(k as int).drop_last() =~= cs.take(k - 1));
                lemma_item(cur, *n);
                lemma_items_rev(a.indent, cs.take(k - 1));
                assert(cs[k - 1] == *n);
                if is_length(n.condition) {
                    lemma_generable_child(cs, k - 1);
                }
            }
            match self.push_length_arm(ctx, wctx, n) {
                Ok(()) => {},
                Err(e) => {
                    proof {
                        assert(!child_stacked(cs[k - 1]));
                    }
                    return Err(e);
                },
            }
            proof {
                assert(wctx.writer@ + b.text =~= head + full.text);
                assert(deps_view(wctx.deps) + b.deps =~= deps_head + full.deps);
            }
            k = k - 1;
        }
        proof {
            lemma_items_rev_empty(wctx.w_indent as nat, cs.take(0));
            assert(wctx.writer@ =~= head + full.text);
            assert(deps_view(wctx.deps) =~= deps_head + full.deps);
        }
        push_line(&mut wctx.writer, wctx.w_indent, "_ => {");
        push_line(&mut wctx.writer, wctx.w_indent, "// Handle 404 here");
        push_line(&mut wctx.writer, wctx.w_indent, "},");
        wctx.w_indent = wctx.w_indent - 1;
        push_line(&mut wctx.writer, wctx.w_indent, "}");
        proof {
            assert(wctx.writer@ =~= start + gen_len(w0, cs).text);
            assert(deps_view(wctx.deps) =~= deps0 + gen_len(w0, cs).deps);
        }
        Ok(wctx.w_indent)
    }
}

impl OutAdapter for RustAdapter {
    /// The router file for a tree: the module of each stack the routes dispatch to,
    /// then `route`, which decides on the route's bytes and length and dispatches
    /// on the method. Fails when a route that generation reaches has no stack.
    fn generate(&mut self, ctx: &mut OmnicomCtx, tree: &GenTree) -> (r: Result<String, String>)
        ensures
            r is Ok <==> stacked(groutes_view(tree.node.routes), tree.node.children@),
            r matches Ok(s) ==> s@ == router_text(groutes_view(tree.node.routes), tree.node.children@),
            r matches Err(e) ==> e@ == "Unable to generate stack router"@,
    {
        let ghost g = gen_r(1, groutes_view(tree.node.routes), tree.node.children@);
        let mut wctx = OutWriteContext { writer: String::new(), w_indent: 1, deps: Vec::new() };
        wctx.writer.append("pub fn route(method: u32, route: &[u8]) {\n");
        assert(deps_view(wctx.deps) =~= Seq::<Seq<char>>::empty());
        match self.generate_r(ctx, &mut wctx, &tree.node.routes, &tree.node.children) {
            Ok(()) => {},
            Err(e) => {
                return Err(e);
            },
        }
        wctx.writer.append("}\n");
        let ghost deps = deps_view(wctx.deps);
        assert(deps =~= g.deps);
        let mut out = String::new();
        let n = wctx.deps.len();
        if n > 0 {
            let mut i: usize = 0;
            proof {
                assert(deps.take(0) =~= Seq::<Seq<char>>::empty());
            }
            while i < n
                invariant
                    i <= n,
                    n == deps.len(),
                    deps == deps_view(wctx.deps),
                    out@ == mod_lines(deps.take(i as int)),
                decreases n - i,
            {
                out.append("mod ");
                out.append(wctx.deps[i].as_str());
                out.append(";\n");
                proof {
                    assert(deps.take(i + 1).drop_last() =~= deps.take(i as int));
                    assert(deps.take(i + 1).last() == wctx.deps@[i as int]@);
                }
                i = i + 1;
            }
            push_char(&mut out, '\n');
            assert(deps.take(n as int) =~= deps);
        }
        out.append(wctx.writer.as_str());
        assert(out@ =~= router_text(groutes_view(tree.node.routes), tree.node.children@));
        Ok(out)
    }

    /// Appends the decision on the route's length over levels, in the order given,
    /// and returns the indentation after it; levels under another kind of condition
    /// are skipped, and nothing is appended for no levels. Fails when a route that
    /// generation reaches has no stack.
    fn generate_cond(
        &mut self,
        ctx: &mut OmnicomCtx,
        wctx: &mut OutWriteContext,
        children: &Vec<GenNode>,
    ) -> (r: Result<usize, String>)
        ensures
            children@.len() == 0 ==> r == Ok::<usize, String>(old(wctx).w_indent) && *final(wctx) == *old(wctx),
            children@.len() > 0 ==> (r is Ok <==> children_stacked(children@)),
            children@.len() > 0 ==> (r matches Ok(w) ==> w == gen_len(
                old(wctx).w_indent as nat,
                children@.reverse(),
            ).indent && final(wctx).w_indent == w && final(wctx).writer@ == old(wctx).writer@ + gen_len(
                old(wctx).w_indent as nat,
                children@.reverse(),
            ).text && deps_view(final(wctx).deps) == deps_view(old(wctx).deps) + gen_len(
                old(wctx).w_indent as nat,
                children@.reverse(),
            ).deps),
            r matches Err(e) ==> e@ == "Unable to generate stack router"@,
    {
        let len = children.len();
        if len == 0 {
            return Ok(wctx.w_indent);
        }
        let ghost w0 = wctx.w_indent as nat;
        let ghost cs = children@;
        let ghost rc = cs.reverse();
        let ghost full = items_rev(w0 + 1, rc);
        let ghost start = wctx.writer@;
        let ghost deps0 = deps_view(wctx.deps);
        proof {
            lemma_gen_len(w0, rc);
            lemma_items_rev(w0 + 1, rc);
            lemma_gen_len_unfold(w0, rc);
        }
        push_line(&mut wctx.writer, wctx.w_indent, "let l = route.len();");
        push_line(&mut wctx.writer, wctx.w_indent, "match l {");
        wctx.w_indent = wctx.w_indent + 1;
        let ghost head = wctx.writer@;
        let ghost deps_head = deps_view(wctx.deps);
        let mut m: usize = len;
        proof {
            assert(rc.take(m as int) =~= rc);
        }
        while m > 0
            invariant
                m <= len,
                len == cs.len(),
                rc.len() == cs.len(),
                cs == children@,
                rc == cs.reverse(),
                levels_generable(cs),
                full == items_rev(w0 + 1, rc),
                full.peak <= usize::MAX,
                items_rev(wctx.w_indent as nat, rc.take(m as int)).peak <= full.peak,
                items_rev(wctx.w_indent as nat, rc.take(m as int)).indent == full.indent,
                wctx.writer@ + items_rev(wctx.w_indent as nat, rc.take(m as int)).text == head + full.text,
                deps_view(wctx.deps) + items_rev(wctx.w_indent as nat, rc.take(m as int)).deps == deps_head
                    + full.deps,
                forall|j: int| m <= j < rc.len() ==> child_stacked(#[trigger] rc[j]),
            decreases m,
        {
            let n = &children[len - m];
            let ghost cur = wctx.w_indent as nat;
            let ghost a = item(cur, *n);
            let ghost b = items_rev(a.indent, rc.take(m - 1));
            proof {
                assert(rc[m - 1] == cs[len - m]);
                lemma_items_rev_step(cur, rc.take(m as int));
                assert(rc.take(m as int).last() == *n);
                assert(rc.take(m as int).drop_last() =~= rc.take(m - 1));
                lemma_item(cur, *n);
                lemma_items_rev(a.indent, rc.take(m - 1));
                assert(is_length(cs[len - m].condition) ==> generable(cs[len - m].children@));
            }
            match self.push_length_arm(ctx, wctx, n) {
                Ok(()) => {},
                Err(e) => {
                    proof {
                        assert(!child_stacked(cs[len - m]));
                    }
                    return Err(e);
                },
            }
            proof {
                assert(wctx.writer@ + b.text =~= head + full.text);
                assert(deps_view(wctx.deps) + b.deps =~= deps_head + full.deps);
            }
            m = m - 1;
        }
        proof {
            lemma_items_rev_empty(wctx.w_indent as nat, rc.take(0));
            assert(wctx.writer@ =~= head + full.text);
            assert(deps_view(wctx.deps) =~= deps_head + full.deps);
            assert forall|j: int| 0 <= j < cs.len() implies child_stacked(#[trigger] cs[j]) by {
                assert(rc[cs.len() - 1 - j] == cs[j]);
            }
        }
        push_line(&mut wctx.writer, wctx.w_indent, "_ => {");
        push_line(&mut wctx.writer, wctx.w_indent, "// Handle 404 here");
        push_line(&mut wctx.writer, wctx.w_indent, "},");
        wctx.w_indent = wctx.w_indent - 1;
        push_line(&mut wctx.writer, wctx.w_indent, "}");
        proof {
            assert(wctx.writer@ =~= start + gen_len(w0, rc).text);
            assert(deps_view(wctx.deps) =~= deps0 + gen_len(w0, rc).deps);
        }
        Ok(wctx.w_indent)
    }

    /// Appends the dispatch of one route on the method bits; a route without stacks
    /// is refused.
    fn generate_route(&mut self, wctx: &mut OutWriteContext, route: &GenRoute) -> (r: Result<
        usize,
        String,
    >)
        ensures
            final(wctx).w_indent == old(wctx).w_indent,
            match r {
                Ok(i) => route@.stack.len() > 0 && i == old(wctx).w_indent && final(wctx).writer@
                    == old(wctx).writer@ + stack_text(old(wctx).w_indent as nat, route@.stack)
                    && deps_view(final(wctx).deps) == deps_view(old(wctx).deps).push(route@.stack[0].1),
                Err(e) => route@.stack.len() == 0 && e@ == "Unable to generate stack router"@
                    && final(wctx).writer@ == old(wctx).writer@ && deps_view(final(wctx).deps)
                    == deps_view(old(wctx).deps),
            },
    {
        let stacks = route.get_stacks();
        let ghost st = route@.stack;
        let n = stack_vec_len(stacks);
        if n == 0 {
            return Err(String::from_str("Unable to generate stack router"));
        }
        let w = wctx.w_indent;
        let ghost start = wctx.writer@;
        let ghost deps0 = deps_view(wctx.deps);
        let r0 = stack_vec_get(stacks, 0);
        assert(st[0] == (r0.0.bits, r0.1@));
        wctx.deps.push(r0.1.clone());
        assert(deps_view(wctx.deps) =~= deps0.push(st[0].1));
        push_test_line(&mut wctx.writer, w, "if method & ", r0.0.bits());
        push_call_line(&mut wctx.writer, w + 1, r0.1.as_str());
        let ghost first = line(w as nat, "if method & "@ + bin_text(st[0].0) + " {"@) + line(
            (w + 1) as nat,
            call_text(st[0].1),
        );
        assert(wctx.writer@ =~= start + first);
        let mut k: usize = 1;
        proof {
            assert(st.subrange(1, 1) =~= Seq::<(u32, Seq<char>)>::empty());
        }
        while k < n
            invariant
                1 <= k <= n,
                n == st.len(),
                st == route@.stack,
                stack_vec(*stacks).map_values(|e: (Method, String)| (e.0.bits, e.1@)) == st,
                w == wctx.w_indent,
                w + 1 <= usize::MAX,
                deps_view(wctx.deps) == deps0.push(st[0].1),
                wctx.writer@ == start + first + stack_branches(w as nat, st.subrange(1, k as int)),
            decreases n - k,
        {
            let rk = stack_vec_get(stacks, k);
            assert(st[k as int] == (rk.0.bits, rk.1@));
            let ghost before = wctx.writer@;
            push_test_line(&mut wctx.writer, w, "} else if method & ", rk.0.bits());
            push_call_line(&mut wctx.writer, w + 1, rk.1.as_str());
            proof {
                assert(st.subrange(1, k + 1).drop_last() =~= st.subrange(1, k as int));
                assert(st.subrange(1, k + 1).last() == st[k as int]);
                assert(wctx.writer@ =~= before + line(w as nat, "} else if method & "@ + bin_text(st[k as int].0) + " {"@)
                    + line((w + 1) as nat, call_text(st[k as int].1)));
            }
            k = k + 1;
        }
        push_line(&mut wctx.writer, w, "} else {");
        push_line(&mut wctx.writer, w + 1, "// Handle 405 Here");
        push_line(&mut wctx.writer, w, "}");
        assert(wctx.writer@ =~= start + stack_text(w as nat, st));
        Ok(w)
    }
}

/// A level below is stacked: when it is generated (it is under a length condition),
/// every route it reaches has a stack.
#[verifier::opaque]
pub open spec fn child_stacked_spec(n: GenNode) -> bool {
    is_length(n.condition) ==> stacked(groutes_view(n.routes), n.children@)
}

pub open spec fn child_stacked(n: GenNode) -> bool {
    child_stacked_spec(n)
}

/// Every level below is stacked.
pub open spec fn children_stacked(cs: Seq<GenNode>) -> bool {
    forall|j: int| 0 <= j < cs.len() ==> child_stacked(#[trigger] cs[j])
}

proof fn lemma_unstacked_child(rs: Seq<GenRouteView>, cs: Seq<GenNode>)
    requires
        !children_stacked(cs),
    ensures
        !stacked(rs, cs),
{
    reveal(stacked);
    reveal(child_stacked_spec);
}

proof fn lemma_stacked_intro(rs: Seq<GenRouteView>, cs: Seq<GenNode>)
    requires
        forall|j: int| 0 <= j < rs.len() ==> (#[trigger] rs[j]).stack.len() > 0,
        cs.len() > 0 ==> children_stacked(cs),
    ensures
        stacked(rs, cs),
{
    reveal(stacked);
    reveal(child_stacked_spec);
}

proof fn lemma_generable_child(cs: Seq<GenNode>, i: int)
    requires
        generable(cs),
        0 <= i < cs.len(),
        is_length(cs[i].condition),
    ensures
        generable(cs[i].children@),
{
    reveal(generable);
}

/// Every route of a level has a stack.
pub open spec fn routes_stacked(rs: Seq<GenRouteView>) -> bool {
    forall|j: int| 0 <= j < rs.len() ==> (#[trigger] rs[j]).stack.len() > 0
}

proof fn lemma_gen_r_unfold(w: nat, rs: Seq<GenRouteView>, cs: Seq<GenNode>)
    ensures
        cs.len() > 0 ==> ({
            let has = rs.len() > 0;
            let w2: nat = if has {
                w + 2
            } else {
                w
            };
            let g = gen_len(w2, cs);
            let w4: nat = if has {
                (g.indent - 1) as nat
            } else {
                g.indent
            };
            gen_r(w, rs, cs) == GenOut {
                text: match_text(w, rs) + (if has {
                    line(w + 1, "_ => {"@)
                } else {
                    seq![]
                }) + g.text + (if has {
                    line(w4, "}"@)
                } else {
                    seq![]
                }),
                indent: w4,
                peak: max(
                    if has {
                        w + 3
                    } else {
                        w
                    },
                    g.peak,
                ),
                deps: route_deps(rs) + g.deps,
            }
        }),
        cs.len() == 0 ==> gen_r(w, rs, cs) == (GenOut {
            text: match_text(w, rs) + (if rs.len() > 0 {
                line(w, "}"@)
            } else {
                seq![]
            }),
            indent: w,
            peak: if rs.len() > 0 {
                w + 3
            } else {
                w
            },
            deps: route_deps(rs),
        }),
{
    reveal(gen_r);
    reveal(gen_len);
    reveal(items_rev);
    reveal(item);
}

proof fn lemma_gen_len_unfold(w: nat, cs: Seq<GenNode>)
    ensures
        ({
            let items = items_rev(w + 1, cs);
            let wf = items.indent;
            gen_len(w, cs) == GenOut {
                text: line(w, "let l = route.len();"@) + line(w, "match l {"@) + items.text + line(
                    wf,
                    "_ => {"@,
                ) + line(wf, "// Handle 404 here"@) + line(wf, "},"@) + line((wf - 1) as nat, "}"@),
                indent: (wf - 1) as nat,
                peak: max(w + 1, items.peak),
                deps: items.deps,
            }
        }),
{
    reveal(gen_r);
    reveal(gen_len);
    reveal(items_rev);
    reveal(item);
}

proof fn lemma_items_rev_step(w: nat, cs: Seq<GenNode>)
    requires
        cs.len() > 0,
    ensures
        ({
            let a = item(w, cs.last());
            let b = items_rev(a.indent, cs.drop_last());
            items_rev(w, cs) == GenOut {
                text: a.text + b.text,
                indent: b.indent,
                peak: max(a.peak, b.peak),
                deps: a.deps + b.deps,
            }
        }),
{
    reveal(gen_r);
    reveal(gen_len);
    reveal(items_rev);
    reveal(item);
}

proof fn lemma_items_rev_empty(w: nat, cs: Seq<GenNode>)
    requires
        cs.len() == 0,
    ensures
        items_rev(w, cs) == (GenOut { text: seq![], indent: w, peak: w, deps: seq![] }),
{
    reveal(gen_r);
    reveal(gen_len);
    reveal(items_rev);
    reveal(item);
}

proof fn lemma_item_unfold(w: nat, n: GenNode)
    ensures
        n.condition matches Some(ConditionType::Length(l)) ==> ({
            let body = gen_r(w + 1, groutes_view(n.routes), n.children@);
            let wi = (body.indent - 1) as nat;
            item(w, n) == GenOut {
                text: line(w, decimal(l as nat) + " => {"@) + body.text + line(wi, "},"@),
                indent: wi,
                peak: max(w + 1, body.peak),
                deps: body.deps,
            }
        }),
        !is_length(n.condition) ==> item(w, n) == (GenOut { text: seq![], indent: w, peak: w, deps: seq![] }),
{
    reveal(gen_r);
    reveal(gen_len);
    reveal(items_rev);
    reveal(item);
}

proof fn lemma_unstacked_routes(rs: Seq<GenRouteView>, cs: Seq<GenNode>)
    requires
        !routes_stacked(rs),
    ensures
        !stacked(rs, cs),
{
    reveal(stacked);
}

/// The branch of a method dispatch for stack `i`: the test of its method bits,
/// `if` for the first stack and `} else if` for the others, then the call of the
/// stack.
pub open spec fn stack_branch(w: nat, st: Seq<(u32, Seq<char>)>, i: int) -> Seq<char> {
    line(
        w,
        (if i == 0 {
            "if method & "@
        } else {
            "} else if method & "@
        }) + bin_text(st[i].0) + " {"@,
    ) + line(w + 1, call_text(st[i].1))
}

/// The further branch for one stack.
pub open spec fn else_branch(w: nat, x: (u32, Seq<char>)) -> Seq<char> {
    line(w, "} else if method & "@ + bin_text(x.0) + " {"@) + line(w + 1, call_text(x.1))
}

proof fn lemma_branches_have(w: nat, s: Seq<(u32, Seq<char>)>, j: int)
    requires
        0 <= j < s.len(),
    ensures
        occurs_at(stack_branches(w, s), stack_branches(w, s.take(j)).len() as int, else_branch(w, s[j])),
    decreases s.len(),
{
    let prev = stack_branches(w, s.drop_last());
    let last = else_branch(w, s.last());
    assert(stack_branches(w, s) =~= prev + last);
    if j == s.len() - 1 {
        assert(s.take(j) =~= s.drop_last());
        lemma_occurs_self(last);
        lemma_occurs_right(prev, last, 0, last);
    } else {
        lemma_branches_have(w, s.drop_last(), j);
        assert(s.drop_last()[j] == s[j]);
        assert(s.drop_last().take(j) =~= s.take(j));
        lemma_occurs_left(prev, last, stack_branches(w, s.take(j)).len() as int, else_branch(w, s[j]));
    }
}

proof fn lemma_branches_grow(w: nat, s: Seq<(u32, Seq<char>)>, i: int, j: int)
    requires
        0 <= i < j <= s.len(),
    ensures
        stack_branches(w, s.take(i)).len() + else_branch(w, s[i]).len() <= stack_branches(w, s.take(j)).len(),
    decreases j,
{
    let t = s.take(j);
    assert(t.drop_last() =~= s.take(j - 1));
    assert(t.last() == s[j - 1]);
    assert(stack_branches(w, t) =~= stack_branches(w, s.take(j - 1)) + else_branch(w, s[j - 1]));
    if i < j - 1 {
        lemma_branches_grow(w, s, i, j - 1);
    }
}

/// Where the branch for stack `i` stands in a route's method dispatch.
pub open spec fn branch_pos(w: nat, st: Seq<(u32, Seq<char>)>, i: int) -> int {
    if i == 0 {
        0
    } else {
        ((line(w, "if method & "@ + bin_text(st[0].0) + " {"@) + line(w + 1, call_text(st[0].1))).len()
            + stack_branches(w, st.subrange(1, st.len() as int).take(i - 1)).len()) as int
    }
}

proof fn lemma_stack_branch_at(w: nat, st: Seq<(u32, Seq<char>)>, i: int)
    requires
        0 <= i < st.len(),
    ensures
        occurs_at(stack_text(w, st), branch_pos(w, st, i), stack_branch(w, st, i)),
{
    let a = line(w, "if method & "@ + bin_text(st[0].0) + " {"@) + line(w + 1, call_text(st[0].1));
    let rest = st.subrange(1, st.len() as int);
    let b = stack_branches(w, rest);
    let c = line(w, "} else {"@) + line(w + 1, "// Handle 405 Here"@) + line(w, "}"@);
    assert(stack_text(w, st) =~= a + b + c);
    if i == 0 {
        assert(stack_branch(w, st, 0) =~= a);
        lemma_occurs_self(a);
        lemma_occurs_left(a, b, 0, a);
        lemma_occurs_left(a + b, c, 0, a);
    } else {
        lemma_branches_have(w, rest, i - 1);
        assert(rest[i - 1] == st[i]);
        assert(stack_branch(w, st, i) =~= else_branch(w, rest[i - 1]));
        let q = stack_branches(w, rest.take(i - 1)).len() as int;
        lemma_occurs_right(a, b, q, else_branch(w, rest[i - 1]));
        lemma_occurs_left(a + b, c, a.len() + q, else_branch(w, rest[i - 1]));
    }
}

/// A route's method dispatch has a branch for every one of its stacks, in the
/// order of the stacks: the test of that stack's method bits (`if` for the first,
/// `} else if` for the others) followed by the call of that stack; the branch of
/// an earlier stack ends before the branch of a later one starts.
pub proof fn law_stack_dispatch_covers_every_stack(w: nat, st: Seq<(u32, Seq<char>)>, i: int, j: int)
    requires
        0 <= i < st.len(),
    ensures
        occurs_at(stack_text(w, st), branch_pos(w, st, i), stack_branch(w, st, i)),
        i < j < st.len() ==> branch_pos(w, st, i) + stack_branch(w, st, i).len() <= branch_pos(w, st, j),
{
    lemma_stack_branch_at(w, st, i);
    if i < j && j < st.len() {
        let a = line(w, "if method & "@ + bin_text(st[0].0) + " {"@) + line(w + 1, call_text(st[0].1));
        let rest = st.subrange(1, st.len() as int);
        assert(rest.take(0) =~= Seq::<(u32, Seq<char>)>::empty());
        if i == 0 {
            assert(stack_branch(w, st, 0) =~= a);
        } else {
            lemma_branches_grow(w, rest, i - 1, j - 1);
            assert(rest[i - 1] == st[i]);
            assert(stack_branch(w, st, i) =~= else_branch(w, rest[i - 1]));
        }
    }
}

/// The entry of a route in the router's `match`: its path, then its dispatch.
pub open spec fn route_entry(w: nat, r: GenRouteView) -> Seq<char> {
    line(w, "b\""@ + r.path + "\" => {,"@) + stack_text(w + 1, r.stack) + line(w, "}"@)
}

proof fn lemma_entries_have(w: nat, rs: Seq<GenRouteView>, j: int)
    requires
        0 <= j < rs.len(),
    ensures
        occurs_at(route_entries(w, rs), route_entries(w, rs.take(j)).len() as int, route_entry(w, rs[j])),
    decreases rs.len(),
{
    let prev = route_entries(w, rs.drop_last());
    let last = route_entry(w, rs.last());
    assert(route_entries(w, rs) =~= prev + last);
    if j == rs.len() - 1 {
        assert(rs.take(j) =~= rs.drop_last());
        lemma_occurs_self(last);
        lemma_occurs_right(prev, last, 0, last);
    } else {
        lemma_entries_have(w, rs.drop_last(), j);
        assert(rs.drop_last()[j] == rs[j]);
        assert(rs.drop_last().take(j) =~= rs.take(j));
        lemma_occurs_left(prev, last, route_entries(w, rs.take(j)).len() as int, route_entry(w, rs[j]));
    }
}

proof fn lemma_entries_grow(w: nat, rs: Seq<GenRouteView>, i: int, j: int)
    requires
        0 <= i < j <= rs.len(),
    ensures
        route_entries(w, rs.take(i)).len() + route_entry(w, rs[i]).len() <= route_entries(w, rs.take(j)).len(),
    decreases j,
{
    let t = rs.take(j);
    assert(t.drop_last() =~= rs.take(j - 1));
    assert(t.last() == rs[j - 1]);
    assert(route_entries(w, t) =~= route_entries(w, rs.take(j - 1)) + route_entry(w, rs[j - 1]));
    if i < j - 1 {
        lemma_entries_grow(w, rs, i, j - 1);
    }
}

/// Where the entry of route `i` stands in a level's route `match`.
pub open spec fn entry_pos(w: nat, rs: Seq<GenRouteView>, i: int) -> int {
    (line(w, "match route {"@).len() + route_entries(w + 1, rs.take(i)).len()) as int
}

/// The router's `match` over a level's routes has an entry for every one of them,
/// in order: its path, then its dispatch on the method; the entry of an earlier
/// route ends before the entry of a later one starts.
pub proof fn law_router_match_covers_every_route(w: nat, rs: Seq<GenRouteView>, i: int, j: int)
    requires
        0 <= i < rs.len(),
    ensures
        occurs_at(match_text(w, rs), entry_pos(w, rs, i), route_entry(w + 1, rs[i])),
        i < j < rs.len() ==> entry_pos(w, rs, i) + route_entry(w + 1, rs[i]).len() <= entry_pos(w, rs, j),
{
    let a = line(w, "match route {"@);
    let b = route_entries(w + 1, rs);
    let c = line(w + 1, "_ => {"@) + line(w + 1, "// Handle 404 here"@) + line(w + 1, "},"@);
    assert(match_text(w, rs) =~= a + b + c);
    lemma_entries_have(w + 1, rs, i);
    let q = route_entries(w + 1, rs.take(i)).len() as int;
    lemma_occurs_right(a, b, q, route_entry(w + 1, rs[i]));
    lemma_occurs_left(a + b, c, a.len() + q, route_entry(w + 1, rs[i]));
    if i < j && j < rs.len() {
        lemma_entries_grow(w + 1, rs, i, j);
    }
}

/// The length a level's length condition tests; zero for another level.
pub open spec fn opt_length(c: Option<ConditionType>) -> nat {
    match c {
        Some(ConditionType::Length(l)) => l as nat,
        _ => 0,
    }
}

proof fn lemma_items_have(w: nat, cs: Seq<GenNode>, j: int) -> (r: (int, nat))
    requires
        0 <= j < cs.len(),
    ensures
        occurs_at(items_rev(w, cs).text, r.0, item(r.1, cs[j]).text),
    decreases cs.len(),
{
    lemma_items_rev_step(w, cs);
    let a = item(w, cs.last());
    let b = items_rev(a.indent, cs.drop_last());
    if j == cs.len() - 1 {
        lemma_occurs_self(a.text);
        lemma_occurs_left(a.text, b.text, 0, a.text);
        (0, w)
    } else {
        let q = lemma_items_have(a.indent, cs.drop_last(), j);
        assert(cs.drop_last()[j] == cs[j]);
        lemma_occurs_right(a.text, b.text, q.0, item(q.1, cs[j]).text);
        (a.text.len() + q.0, q.1)
    }
}

/// A length decision has an arm for every level under a length condition: at
/// some indentation, the length followed by ` => {`, the code for that level, and
/// the closing `},`.
pub proof fn law_length_decision_covers_every_level(w: nat, cs: Seq<GenNode>, i: int)
    requires
        0 <= i < cs.len(),
        is_length(cs[i].condition),
    ensures
        exists|p: int, v: nat|
            #[trigger] occurs_at(gen_len(w, cs).text, p, item(v, cs[i]).text) && item(v, cs[i]).text.take(
                line(v, decimal(opt_length(cs[i].condition)) + " => {"@).len() as int,
            ) == line(v, decimal(opt_length(cs[i].condition)) + " => {"@),
{
    lemma_gen_len_unfold(w, cs);
    let items = items_rev(w + 1, cs);
    let wf = items.indent;
    let head = line(w, "let l = route.len();"@) + line(w, "match l {"@);
    let tail = line(wf, "_ => {"@) + line(wf, "// Handle 404 here"@) + line(wf, "},"@) + line((wf - 1) as nat, "}"@);
    assert(gen_len(w, cs).text =~= head + items.text + tail);
    let q = lemma_items_have(w + 1, cs, i);
    let piece = item(q.1, cs[i]).text;
    lemma_occurs_right(head, items.text, q.0, piece);
    lemma_occurs_left(head + items.text, tail, head.len() + q.0, piece);
    lemma_item_unfold(q.1, cs[i]);
    let first = line(q.1, decimal(opt_length(cs[i].condition)) + " => {"@);
    assert(piece.take(first.len() as int) =~= first);
    assert(occurs_at(gen_len(w, cs).text, head.len() + q.0, piece));
}

} // verus!
