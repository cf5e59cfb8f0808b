//! Text building blocks shared by the generators: indentation, number
//! rendering, hex encoding and bit-flag names.
use vstd::prelude::*;

verus! {

/// `n` spaces.
pub open spec fn spaces(n: nat) -> Seq<char> {
    Seq::new(n, |i: int| ' ')
}

/// The indentation the generators write for a nesting depth: four spaces per level.
pub open spec fn indent_text(indent: nat) -> Seq<char> {
    spaces(4 * indent)
}

/// One generated line: indentation, the text, a newline.
pub open spec fn line(indent: nat, text: Seq<char>) -> Seq<char> {
    indent_text(indent) + text + seq!['\n']
}

/// The lowercase digit for a value below sixteen.
pub open spec fn digit_char(d: nat) -> char {
    seq!['0', '1', '2', '3', '4', '5', '6', '7', '8', '9', 'a', 'b', 'c', 'd', 'e', 'f'][d as int]
}

/// Decimal rendering of a natural number, without leading zeros.
pub open spec fn decimal(n: nat) -> Seq<char>
    decreases n,
{
    if n < 10 {
        seq![digit_char(n)]
    } else {
        decimal(n / 10).push(digit_char(n % 10))
    }
}

/// Lowercase hexadecimal rendering of a natural number, without leading zeros.
pub open spec fn lower_hex(n: nat) -> Seq<char>
    decreases n,
{
    if n < 16 {
        seq![digit_char(n)]
    } else {
        lower_hex(n / 16).push(digit_char(n % 16))
    }
}

/// Lowercase hexadecimal encoding of bytes, two digits per byte.
pub open spec fn hex_bytes(data: Seq<u8>) -> Seq<char> {
    Seq::new(
        2 * data.len(),
        |i: int|
            if i % 2 == 0 {
                digit_char((data[i / 2] / 16) as nat)
            } else {
                digit_char((data[i / 2] % 16) as nat)
            },
    )
}

/// The parts joined with `sep` between neighbours.
pub open spec fn join(parts: Seq<Seq<char>>, sep: Seq<char>) -> Seq<char>
    decreases parts.len(),
{
    if parts.len() == 0 {
        seq![]
    } else if parts.len() == 1 {
        parts[0]
    } else {
        join(parts.drop_last(), sep) + sep + parts.last()
    }
}

/// Appends one character: `String::push` from std.
#[verifier::external_body]
pub(crate) fn push_char(s: &mut String, c: char)
    ensures
        final(s)@ == old(s)@.push(c),
{
    s.push(c);
}

/// Lowercase hexadecimal encoding of bytes: `const_hex::encode`, which writes two
/// lowercase hex digits per input byte, in order.
#[verifier::external_body]
pub(crate) fn hex_encode(data: &[u8]) -> (res: String)
    ensures
        res@ == hex_bytes(data@),
{
    const_hex::encode(data)
}

/// The characters of `s` with every character in its uppercase form, as
/// `str::to_uppercase` of std computes them (Unicode case mapping).
pub uninterp spec fn uppercase(s: Seq<char>) -> Seq<char>;

/// `str::to_uppercase` from std; its result is named by `uppercase`.
#[verifier::external_body]
pub(crate) fn to_uppercase(s: &str) -> (res: String)
    ensures
        res@ == uppercase(s@),
{
    s.to_uppercase()
}

/// Whether two strings hold the same characters.
pub fn str_eq(a: &str, b: &str) -> (r: bool)
    ensures
        r == (a@ == b@),
{
    let x = a.to_owned();
    let y = b.to_owned();
    x == y
}

/// Appends the indentation for `indent` levels.
pub fn push_indent(s: &mut String, indent: usize)
    ensures
        final(s)@ == old(s)@ + indent_text(indent as nat),
{
    let mut i: usize = 0;
    while i < indent
        invariant
            i <= indent,
            s@ == old(s)@ + spaces(4 * i as nat),
        decreases indent - i,
    {
        s.append("    ");
        proof {
            reveal_strlit("    ");
        }
        i = i + 1;
        assert(s@ =~= old(s)@ + spaces(4 * i as nat));
    }
}

/// Appends one generated line: indentation, `text`, newline.
pub fn push_line(s: &mut String, indent: usize, text: &str)
    ensures
        final(s)@ == old(s)@ + line(indent as nat, text@),
{
    push_indent(s, indent);
    s.append(text);
    push_char(s, '\n');
    assert(s@ =~= old(s)@ + line(indent as nat, text@));
}

/// The digit character for a value below sixteen.
pub fn digit(d: u64) -> (c: char)
    requires
        d < 16,
    ensures
        c == digit_char(d as nat),
{
    let table = ['0', '1', '2', '3', '4', '5', '6', '7', '8', '9', 'a', 'b', 'c', 'd', 'e', 'f'];
    assert(table@ =~= seq![
        '0', '1', '2', '3', '4', '5', '6', '7', '8', '9', 'a', 'b', 'c', 'd', 'e', 'f',
    ]);
    table[d as usize]
}

/// Appends the decimal rendering of `n`.
pub fn push_decimal(s: &mut String, n: u64)
    ensures
        final(s)@ == old(s)@ + decimal(n as nat),
    decreases n,
{
    if n < 10 {
        push_char(s, digit(n));
        assert(s@ =~= old(s)@ + decimal(n as nat));
    } else {
        push_decimal(s, n / 10);
        push_char(s, digit(n % 10));
        assert(s@ =~= old(s)@ + decimal(n as nat));
    }
}

/// Appends the lowercase hexadecimal rendering of `n`.
pub fn push_lower_hex(s: &mut String, n: u64)
    ensures
        final(s)@ == old(s)@ + lower_hex(n as nat),
    decreases n,
{
    if n < 16 {
        push_char(s, digit(n));
        assert(s@ =~= old(s)@ + lower_hex(n as nat));
    } else {
        push_lower_hex(s, n / 16);
        push_char(s, digit(n % 16));
        assert(s@ =~= old(s)@ + lower_hex(n as nat));
    }
}

/// The names of the set flags among the first `n` named bits, in bit order.
pub open spec fn set_flag_names(bits: u64, names: Seq<Seq<char>>, n: nat) -> Seq<Seq<char>>
    decreases n,
{
    if n == 0 {
        seq![]
    } else {
        let prev = set_flag_names(bits, names, (n - 1) as nat);
        if bits & (1u64 << ((n - 1) as u64)) != 0 {
            prev.push(names[n - 1])
        } else {
            prev
        }
    }
}

/// The bits of a flag set that no named flag covers, when the names stand for the
/// bits `0 .. names.len()`.
pub open spec fn unnamed_bits(bits: u64, count: nat) -> u64 {
    bits & !(((1u64 << (count as u64)) - 1) as u64)
}

/// How a bit-flag set is written: the names of its set flags joined by `" | "`, then
/// the unnamed bits as `0x` and lowercase hex; an empty set is `0x0`.
pub open spec fn flags_text(bits: u64, names: Seq<Seq<char>>) -> Seq<char> {
    if bits == 0 {
        "0x0"@
    } else {
        let named = set_flag_names(bits, names, names.len());
        let rest = unnamed_bits(bits, names.len());
        let parts = if rest != 0 {
            named.push("0x"@ + lower_hex(rest as nat))
        } else {
            named
        };
        join(parts, " | "@)
    }
}

/// Appends `flags_text(bits, names)`.
pub fn push_flags_text(s: &mut String, bits: u64, names: &Vec<&str>)
    requires
        names.len() < 64,
    ensures
        final(s)@ == old(s)@ + flags_text(bits, names@.map_values(|n: &str| n@)),
{
    let ghost spec_names = names@.map_values(|n: &str| n@);
    if bits == 0 {
        s.append("0x0");
        return;
    }
    let ghost start = s@;
    let mut any = false;
    let mut i: usize = 0;
    while i < names.len()
        invariant
            i <= names.len() < 64,
            spec_names == names@.map_values(|n: &str| n@),
            bits != 0,
            any == (set_flag_names(bits, spec_names, i as nat).len() > 0),
            s@ == start + join(set_flag_names(bits, spec_names, i as nat), " | "@),
        decreases names.len() - i,
    {
        if bits & (1u64 << (i as u64)) != 0 {
            let ghost prev = set_flag_names(bits, spec_names, i as nat);
            if any {
                s.append(" | ");
            }
            s.append(names[i]);
            any = true;
            assert(set_flag_names(bits, spec_names, (i + 1) as nat) == prev.push(names@[i as int]@));
            assert(prev.push(names@[i as int]@).drop_last() =~= prev);
            assert(s@ =~= start + join(set_flag_names(bits, spec_names, (i + 1) as nat), " | "@));
        }
        i = i + 1;
    }
    let n = names.len();
    assert((1u64 << (n as u64)) >= 1) by (bit_vector)
        requires
            n < 64,
    ;
    let mask: u64 = ((1u64 << (n as u64)) - 1) as u64;
    let rest: u64 = bits & !mask;
    assert(rest == unnamed_bits(bits, n as nat));
    let ghost named = set_flag_names(bits, spec_names, n as nat);
    assert(spec_names.len() == n);
    if rest != 0 {
        let ghost before = s@;
        if any {
            s.append(" | ");
        }
        s.append("0x");
        push_lower_hex(s, rest);
        let ghost last = "0x"@ + lower_hex(rest as nat);
        assert(named.push(last).drop_last() =~= named);
        assert(s@ =~= start + join(named.push(last), " | "@));
    }
}


/// Appends the parts joined with `sep` between neighbours.
pub fn push_joined(s: &mut String, parts: &Vec<String>, sep: &str)
    ensures
        final(s)@ == old(s)@ + join(parts@.map_values(|p: String| p@), sep@),
{
    let ghost ps = parts@.map_values(|p: String| p@);
    let mut i: usize = 0;
    proof {
        assert(ps.take(0) =~= Seq::<Seq<char>>::empty());
    }
    while i < parts.len()
        invariant
            i <= parts@.len(),
            ps == parts@.map_values(|p: String| p@),
            s@ == old(s)@ + join(ps.take(i as int), sep@),
        decreases parts@.len() - i,
    {
        if i > 0 {
            s.append(sep);
        }
        s.append(parts[i].as_str());
        proof {
            assert(ps.take(i + 1).drop_last() =~= ps.take(i as int));
            assert(ps.take(i + 1).last() == ps[i as int]);
            if i == 0 {
                assert(ps.take(1) =~= seq![ps[0]]);
            }
        }
        assert(s@ =~= old(s)@ + join(ps.take(i + 1), sep@));
        i = i + 1;
    }
    assert(ps.take(parts@.len() as int) =~= ps);
}

/// `piece` stands in `t` from position `p`.
pub open spec fn occurs_at(t: Seq<char>, p: int, piece: Seq<char>) -> bool {
    &&& 0 <= p
    &&& p + piece.len() <= t.len()
    &&& t.subrange(p, p + piece.len()) == piece
}

/// A text stands at the start of itself.
pub proof fn lemma_occurs_self(t: Seq<char>)
    ensures
        occurs_at(t, 0, t),
{
    assert(t.subrange(0, t.len() as int) =~= t);
}

/// What stands in a text stands at the same place when more follows.
pub proof fn lemma_occurs_left(t: Seq<char>, u: Seq<char>, p: int, piece: Seq<char>)
    requires
        occurs_at(t, p, piece),
    ensures
        occurs_at(t + u, p, piece),
{
    assert((t + u).subrange(p, p + piece.len()) =~= t.subrange(p, p + piece.len()));
}

/// What stands in a text stands further on when the text follows another.
pub proof fn lemma_occurs_right(t: Seq<char>, u: Seq<char>, p: int, piece: Seq<char>)
    requires
        occurs_at(u, p, piece),
    ensures
        occurs_at(t + u, t.len() + p, piece),
{
    assert((t + u).subrange(t.len() + p, t.len() + p + piece.len()) =~= u.subrange(p, p + piece.len()));
}

} // verus!
