//! The canonical text of a program, and the law that parsing it gives the
//! program back.
//!
//! The canonical form puts every expression in parentheses, writes a number
//! as its mantissa and exponent (`-25e-1`), and separates entries with `; `.
use vstd::prelude::*;
use vstd::utf8::{encode_utf8, is_ascii_chars, is_ascii_chars_encode_utf8};
use crate::ast::{Expr, Node, Number, NumberV, Op, Program, nodes};
use crate::lexer::{
    push_char, skip_trivia, chars_of, ident, is_digit, is_ident_char, is_ident_start, is_space, keyword, lemma_skip_space_bounds,
    skip_digits, skip_ident_chars, skip_space, symbol,
};
use crate::literal::{digits_value, drop_zeros, normal, number_literal, skip_zeros};
use crate::parser::{
    arguments, binary, call, declaration, def_decl, def_more, def_params, extern_decl, extern_more,
    extern_params, fold, inner, more_arguments, more_declarations, op_at, parens, program, tail_end,
    term, for_expr, if_expr, kw_if, kw_then, kw_else, kw_for, kw_in, kw_def, kw_extern,
};

verus! {

/// The decimal digits of `m`, most significant first.
pub open spec fn decimal(m: nat) -> Seq<u8>
    decreases m,
{
    if m < 10 {
        seq![(48 + m) as u8]
    } else {
        decimal(m / 10).push((48 + m % 10) as u8)
    }
}

/// The bytes of an ASCII name.
pub open spec fn name_bytes(x: Seq<char>) -> Seq<u8> {
    x.map_values(|c: char| (c as u32) as u8)
}

/// `x` is an identifier: ASCII letters, digits and `_`, not starting with a digit.
pub open spec fn is_name(x: Seq<char>) -> bool {
    &&& x.len() > 0
    &&& chars_of(name_bytes(x)) == x
    &&& is_ident_start(name_bytes(x)[0])
    &&& forall|k: int| 0 <= k < x.len() ==> is_ident_char(#[trigger] name_bytes(x)[k])
}

/// The significant digits of a literal as written: `0` for zero.
pub open spec fn mantissa_text(n: NumberV) -> Seq<u8> {
    if n.digits.len() == 0 {
        seq![48u8]
    } else {
        n.digits
    }
}

/// A number's canonical text: `[-]<digits>e[-]<exponent>`.
pub open spec fn number_text(n: NumberV) -> Seq<u8> {
    (if n.negative { seq![45u8] } else { seq![] }) + mantissa_text(n) + seq![101u8] + (if n.exponent
        < 0 {
        seq![45u8]
    } else {
        seq![]
    }) + decimal(if n.exponent < 0 { (-n.exponent) as nat } else { n.exponent as nat })
}

pub open spec fn op_byte(op: Op) -> u8 {
    match op {
        Op::Plus => 43,
        Op::Minus => 45,
        Op::Multiply => 42,
        Op::Divide => 47,
        Op::LessThan => 60,
        Op::GreaterThan => 62,
        Op::BitwiseOr => 124,
        Op::BitwiseAnd => 38,
    }
}

pub open spec fn op_level(op: Op) -> nat {
    match op {
        Op::BitwiseOr | Op::BitwiseAnd => 1,
        Op::LessThan | Op::GreaterThan => 2,
        Op::Plus | Op::Minus => 3,
        Op::Multiply | Op::Divide => 4,
    }
}

/// An expression's canonical text: its core text in parentheses.
pub open spec fn expr_text(e: Node) -> Seq<u8>
    decreases e, 1nat,
{
    seq![40u8] + core_text(e) + seq![41u8]
}

/// The canonical text of an expression without its parentheses.
pub open spec fn core_text(e: Node) -> Seq<u8>
    decreases e, 0nat,
{
    match e {
        Node::Float(n) => number_text(n),
        Node::Var(x) => name_bytes(x),
        Node::BinOp(op, l, r) => expr_text(*l) + seq![32u8, op_byte(op), 32u8] + expr_text(*r),
        Node::Call(f, args) => name_bytes(f) + seq![40u8] + args_text(args, 0) + seq![41u8],
        Node::IfExpr(c, t, f) => seq![105u8, 102, 32] + expr_text(*c) + seq![32u8, 116, 104, 101, 110, 32]
            + expr_text(*t) + seq![32u8, 101, 108, 115, 101, 32] + expr_text(*f),
        Node::ForInExpr(x, a, c, st, b) => seq![102u8, 111, 114, 32] + name_bytes(x) + seq![32u8, 61, 32]
            + expr_text(*a) + seq![44u8, 32] + expr_text(*c) + seq![44u8, 32] + expr_text(*st) + seq![
            32u8,
            105,
            110,
            32,
        ] + expr_text(*b),
        Node::Sequence(a, b) => expr_text(*a) + seq![32u8, 58, 32] + expr_text(*b),
        _ => seq![],
    }
}

/// The canonical texts of the arguments from index `k` on, separated by `, `.
pub open spec fn args_text(args: Seq<Node>, k: int) -> Seq<u8>
    decreases args, args.len() - k,
{
    if 0 <= k < args.len() {
        if k + 1 < args.len() {
            expr_text(args[k]) + seq![44u8, 32] + args_text(args, k + 1)
        } else {
            expr_text(args[k])
        }
    } else {
        seq![]
    }
}

/// Names from index `k` on, separated by single spaces.
pub open spec fn names_text(xs: Seq<Seq<char>>, k: int) -> Seq<u8>
    decreases xs.len() - k,
{
    if 0 <= k < xs.len() {
        if k + 1 < xs.len() {
            name_bytes(xs[k]) + seq![32u8] + names_text(xs, k + 1)
        } else {
            name_bytes(xs[k])
        }
    } else {
        seq![]
    }
}

/// `e` has a canonical text that parses back to it: its names are
/// identifiers, its numbers are normalised with an exponent that fits in
/// `u64`, and it holds no declarations.
pub open spec fn printable(e: Node) -> bool
    decreases e, 0nat,
{
    match e {
        Node::Float(n) => n.wf() && -0xffff_ffff_ffff_ffff <= n.exponent <= 0xffff_ffff_ffff_ffff,
        Node::Var(x) => is_name(x),
        Node::BinOp(_, l, r) => printable(*l) && printable(*r),
        Node::Call(f, args) => is_name(f) && printable_args(args, 0),
        Node::IfExpr(c, t, f) => printable(*c) && printable(*t) && printable(*f),
        Node::ForInExpr(x, a, c, st, b) => is_name(x) && printable(*a) && printable(*c) && printable(*st)
            && printable(*b),
        Node::Sequence(a, b) => printable(*a) && printable(*b),
        _ => false,
    }
}

pub open spec fn printable_args(args: Seq<Node>, k: int) -> bool
    decreases args, args.len() - k,
{
    if 0 <= k < args.len() {
        printable(args[k]) && printable_args(args, k + 1)
    } else {
        true
    }
}

pub open spec fn all_names(xs: Seq<Seq<char>>) -> bool {
    forall|k: int| 0 <= k < xs.len() ==> is_name(#[trigger] xs[k])
}

/// The canonical text of a top-level entry.
pub open spec fn declaration_text(d: Node) -> Seq<u8> {
    match d {
        Node::Function(f, ps, b) => seq![100u8, 101, 102, 32] + name_bytes(f) + seq![40u8] + names_text(ps, 0)
            + seq![41u8, 32] + expr_text(*b),
        Node::Extern(f, ps) => seq![101u8, 120, 116, 101, 114, 110, 32] + name_bytes(f) + seq![40u8]
            + names_text(ps, 0) + seq![41u8],
        _ => expr_text(d),
    }
}

pub open spec fn printable_declaration(d: Node) -> bool {
    match d {
        Node::Function(f, ps, b) => is_name(f) && all_names(ps) && printable(*b),
        Node::Extern(f, ps) => is_name(f) && all_names(ps),
        _ => printable(d),
    }
}

/// The canonical text of the entries from index `k` on, separated by `; `.
pub open spec fn program_text(ds: Seq<Node>, k: int) -> Seq<u8>
    decreases ds.len() - k,
{
    if 0 <= k < ds.len() {
        if k + 1 < ds.len() {
            declaration_text(ds[k]) + seq![59u8, 32] + program_text(ds, k + 1)
        } else {
            declaration_text(ds[k])
        }
    } else {
        seq![]
    }
}

// Lexical facts.

proof fn lemma_decimal(m: nat)
    ensures
        decimal(m).len() > 0,
        forall|k: int| 0 <= k < decimal(m).len() ==> is_digit(#[trigger] decimal(m)[k]),
        digits_value(decimal(m)) == m,
    decreases m,
{
    if m >= 10 {
        lemma_decimal(m / 10);
        let d = decimal(m / 10);
        assert(decimal(m).drop_last() =~= d);
        assert(m == (m / 10) * 10 + m % 10);
        assert(((48 + m % 10) as u8) as int == 48 + m % 10);
        assert(decimal(m).last() == (48 + m % 10) as u8);
        assert(digits_value(decimal(m)) == digits_value(d) * 10 + (decimal(m).last() - 48) as nat);
    } else {
        assert(decimal(m).drop_last() =~= Seq::<u8>::empty());
        assert(((48 + m) as u8) as int == 48 + m);
        assert(digits_value(Seq::<u8>::empty()) == 0);
        assert(digits_value(decimal(m)) == digits_value(decimal(m).drop_last()) * 10 + (decimal(m).last() - 48) as nat);
    }
}

/// `t` stands in `s` at `i`.
pub open spec fn at(s: Seq<u8>, i: int, t: Seq<u8>) -> bool {
    0 <= i && i + t.len() <= s.len() && s.subrange(i, i + t.len()) == t
}

proof fn lemma_at_index(s: Seq<u8>, i: int, t: Seq<u8>, k: int)
    requires
        at(s, i, t),
        0 <= k < t.len(),
    ensures
        s[i + k] == t[k],
{
    assert(s.subrange(i, i + t.len())[k] == s[i + k]);
}

proof fn lemma_at_split(s: Seq<u8>, i: int, a: Seq<u8>, b: Seq<u8>)
    requires
        at(s, i, a + b),
    ensures
        at(s, i, a),
        at(s, i + a.len(), b),
{
    assert forall|k: int| 0 <= k < a.len() + b.len() implies s[i + k] == #[trigger] (a + b)[k] by {
        lemma_at_index(s, i, a + b, k);
    }
    assert forall|k: int| 0 <= k < a.len() implies #[trigger] s.subrange(i, i + a.len())[k] == a[k] by {
        assert((a + b)[k] == a[k]);
    }
    assert(s.subrange(i, i + a.len()) =~= a);
    assert forall|k: int| 0 <= k < b.len() implies #[trigger] s.subrange(i + a.len(), i + a.len() + b.len())[k] == b[k] by {
        assert((a + b)[a.len() + k] == b[k]);
    }
    assert(s.subrange(i + a.len(), i + a.len() + b.len()) =~= b);
}

proof fn lemma_skip_digits_run(s: Seq<u8>, i: int, j: int)
    requires
        0 <= i <= j <= s.len(),
        forall|k: int| i <= k < j ==> is_digit(#[trigger] s[k]),
        j == s.len() || !is_digit(s[j]),
    ensures
        skip_digits(s, i) == j,
    decreases j - i,
{
    if i < j {
        lemma_skip_digits_run(s, i + 1, j);
    }
}

proof fn lemma_skip_ident_run(s: Seq<u8>, i: int, j: int)
    requires
        0 <= i <= j <= s.len(),
        forall|k: int| i <= k < j ==> is_ident_char(#[trigger] s[k]),
        j == s.len() || !is_ident_char(s[j]),
    ensures
        skip_ident_chars(s, i) == j,
    decreases j - i,
{
    if i < j {
        lemma_skip_ident_run(s, i + 1, j);
    }
}

proof fn lemma_name_bytes(x: Seq<char>)
    requires
        is_name(x),
    ensures
        chars_of(name_bytes(x)) == x,
        name_bytes(x).len() == x.len(),
{
}

/// A name stands at `i` and a byte that cannot continue it follows.
proof fn lemma_ident_at(s: Seq<u8>, i: int, x: Seq<char>)
    requires
        is_name(x),
        at(s, i, name_bytes(x)),
        i + x.len() < s.len(),
        !is_ident_char(s[i + x.len()]),
    ensures
        ident(s, i) == Some((x, i + x.len())),
{
    let b = name_bytes(x);
    lemma_name_bytes(x);
    lemma_at_index(s, i, b, 0);
    assert forall|k: int| i + 1 <= k < i + x.len() implies is_ident_char(#[trigger] s[k]) by {
        lemma_at_index(s, i, b, k - i);
    }
    lemma_skip_ident_run(s, i + 1, i + x.len());
    assert(s.subrange(i, i + x.len()) == b);
}

/// A printable number literal parses back to itself when a `)` follows it.
proof fn lemma_number_at(s: Seq<u8>, i: int, n: NumberV)
    requires
        n.wf(),
        -0xffff_ffff_ffff_ffff <= n.exponent <= 0xffff_ffff_ffff_ffff,
        at(s, i, number_text(n)),
        i + number_text(n).len() < s.len(),
        s[i + number_text(n).len()] == 41,
    ensures
        number_literal(s, i) == Some((n, i + number_text(n).len())),
{
    let a: Seq<u8> = if n.negative { seq![45u8] } else { seq![] };
    let d = mantissa_text(n);
    let b: Seq<u8> = if n.exponent < 0 { seq![45u8] } else { seq![] };
    let ev: nat = if n.exponent < 0 { (-n.exponent) as nat } else { n.exponent as nat };
    let e = decimal(ev);
    lemma_decimal(ev);
    assert(number_text(n) == a + d + seq![101u8] + b + e);
    lemma_at_split(s, i, a + d + seq![101u8] + b, e);
    lemma_at_split(s, i, a + d + seq![101u8], b);
    lemma_at_split(s, i, a + d, seq![101u8]);
    lemma_at_split(s, i, a, d);
    let j = i + a.len();
    let d1 = j + d.len();
    let m = d1 + 1 + b.len();
    let end = m + e.len();
    assert(end == i + number_text(n).len());
    lemma_at_index(s, j, d, 0);
    lemma_at_index(s, d1, seq![101u8], 0);
    lemma_at_index(s, m, e, 0);
    if n.negative {
        lemma_at_index(s, i, a, 0);
    }
    if n.exponent < 0 {
        lemma_at_index(s, d1 + 1, b, 0);
    }
    assert forall|k: int| j <= k < d1 implies is_digit(#[trigger] s[k]) by {
        lemma_at_index(s, j, d, k - j);
    }
    assert forall|k: int| m <= k < end implies is_digit(#[trigger] s[k]) by {
        lemma_at_index(s, m, e, k - m);
    }
    lemma_skip_digits_run(s, j, d1);
    lemma_skip_digits_run(s, m, end);
    let sig = s.subrange(j, d1) + s.subrange(d1, d1);
    assert(sig =~= d);
    assert(s.subrange(m, end) == e);
    if n.digits.len() == 0 {
        assert(skip_zeros(d, 1) == 1);
        assert(skip_zeros(d, 0) == 1);
        let r = normal(n.negative, d, if n.exponent < 0 { -ev } else { ev as int });
        assert(r.digits =~= n.digits);
    } else {
        assert(skip_zeros(d, 0) == 0);
        assert(drop_zeros(d, d.len() as int) == d.len());
        assert(d.subrange(0, d.len() as int) =~= d);
        let r = normal(n.negative, d, if n.exponent < 0 { -ev } else { ev as int });
        assert(r.digits =~= n.digits);
        assert(r.exponent == n.exponent);
    }
}

/// No binary operator of level `m` or above starts at `q`.
pub open spec fn no_op_from(s: Seq<u8>, q: int, m: nat) -> bool {
    forall|l: nat| m <= l ==> #[trigger] op_at(s, q, l) is None
}

pub open spec fn is_op_byte(c: u8) -> bool {
    c == 124 || c == 38 || c == 60 || c == 62 || c == 43 || c == 45 || c == 42 || c == 47
}

proof fn lemma_no_op(s: Seq<u8>, q: int)
    requires
        0 <= q <= s.len(),
        q < s.len() ==> !is_space(s[q]) && !is_op_byte(s[q]),
    ensures
        no_op_from(s, q, 1),
        forall|m: nat| 1 <= m ==> no_op_from(s, q, m),
{
}

proof fn lemma_op_here(s: Seq<u8>, p: int, op: Op)
    requires
        0 <= p < s.len(),
        s[p] == op_byte(op),
    ensures
        op_at(s, p, op_level(op)) == Some((op, skip_space(s, p + 1))),
        op_level(op) < 4 ==> no_op_from(s, p, op_level(op) + 1),
{
}

proof fn lemma_keyword_here(s: Seq<u8>, i: int, w: Seq<u8>)
    requires
        at(s, i, w),
        i < s.len(),
        !is_space(s[i]),
    ensures
        keyword(s, i, w) == Some(skip_space(s, i + w.len())),
{
}

proof fn lemma_keyword_mismatch(s: Seq<u8>, i: int, w: Seq<u8>, k: int)
    requires
        0 <= i < s.len(),
        !is_space(s[i]),
        0 <= k < w.len(),
        i + k < s.len(),
        s[i + k] != w[k],
    ensures
        keyword(s, i, w) is None,
{
    if i + w.len() <= s.len() {
        assert(s.subrange(i, i + w.len())[k] == s[i + k]);
    }
}

/// A keyword that ends in a space does not match a word followed by a parenthesis.
proof fn lemma_keyword_vs_word(s: Seq<u8>, i: int, w: Seq<u8>, n: int)
    requires
        w.len() >= 2,
        w[w.len() - 1] == 32,
        forall|k: int| 0 <= k < w.len() - 1 ==> w[k] != 40 && w[k] != 41,
        0 <= i,
        0 <= n,
        i + n < s.len(),
        forall|k: int| i <= k < i + n ==> !is_space(#[trigger] s[k]),
        s[i + n] == 40 || s[i + n] == 41,
    ensures
        keyword(s, i, w) is None,
{
    if n >= w.len() - 1 {
        lemma_keyword_mismatch(s, i, w, w.len() - 1);
    } else {
        lemma_keyword_mismatch(s, i, w, n);
    }
}

proof fn lemma_binary_of_term(s: Seq<u8>, i: int, e: Node, q: int, m: nat)
    requires
        term(s, i) == Some((e, q)),
        i <= q <= s.len(),
        1 <= m,
        no_op_from(s, q, m),
    ensures
        binary(s, i, m) == Some((e, q)),
    decreases 4 - m,
{
    if m < 4 {
        lemma_binary_of_term(s, i, e, q, m + 1);
    }
    assert(op_at(s, q, m) is None);
    assert(fold(s, q, m, e) == (e, q));
}

proof fn lemma_binary_lift(s: Seq<u8>, i: int, e: Node, q: int, m: nat, top: nat)
    requires
        binary(s, i, top) == Some((e, q)),
        i <= q <= s.len(),
        1 <= m <= top <= 4,
        no_op_from(s, q, 1),
    ensures
        binary(s, i, m) == Some((e, q)),
    decreases top - m,
{
    if m < top {
        lemma_binary_lift(s, i, e, q, m + 1, top);
        assert(op_at(s, q, m) is None);
        assert(fold(s, q, m, e) == (e, q));
    }
}

proof fn lemma_binary_none(s: Seq<u8>, i: int, m: nat)
    requires
        term(s, i) is None,
        1 <= m,
    ensures
        binary(s, i, m) is None,
    decreases 4 - m,
{
    if m < 4 {
        lemma_binary_none(s, i, m + 1);
    }
}

/// Nothing parses at a closing parenthesis.
proof fn lemma_inner_at_close(s: Seq<u8>, i: int)
    requires
        0 <= i < s.len(),
        s[i] == 41,
    ensures
        inner(s, i) is None,
{
    lemma_keyword_mismatch(s, i, seq![105u8, 102, 32], 0);
    lemma_keyword_mismatch(s, i, seq![102u8, 111, 114, 32], 0);
    assert(if_expr(s, i) is None);
    assert(for_expr(s, i) is None);
    assert(ident(s, i) is None);
    assert(call(s, i) is None);
    assert(skip_digits(s, i) == i);
    assert(crate::literal::mantissa_shape(s, i) is None);
    assert(number_literal(s, i) is None);
    assert(parens(s, i) is None);
    assert(term(s, i) is None);
    lemma_binary_none(s, i, 1);
}

proof fn lemma_number_start(n: NumberV)
    requires
        n.wf(),
    ensures
        number_text(n).len() > 0,
        number_text(n)[0] == 45 || is_digit(number_text(n)[0]),
{
}

/// The first byte of a core text is not a space.
proof fn lemma_core_start(e: Node)
    requires
        printable(e),
    ensures
        core_text(e).len() > 0,
        !is_space(core_text(e)[0]),
        core_text(e)[0] != 41,
{
    match e {
        Node::Float(n) => {
            lemma_number_start(n);
        },
        _ => {},
    }
}

/// The separator and the arguments from index `k` on.
pub open spec fn args_tail(args: Seq<Node>, k: int) -> Seq<u8> {
    if 0 <= k < args.len() {
        seq![44u8, 32] + args_text(args, k)
    } else {
        seq![]
    }
}

proof fn lemma_args_text_split(args: Seq<Node>, k: int)
    requires
        0 <= k < args.len(),
    ensures
        args_text(args, k) == expr_text(args[k]) + args_tail(args, k + 1),
{
    if k + 1 < args.len() {
        assert(args_text(args, k) =~= expr_text(args[k]) + args_tail(args, k + 1));
    } else {
        assert(args_text(args, k) =~= expr_text(args[k]) + args_tail(args, k + 1));
    }
}

#[verifier::rlimit(100)]
proof fn lemma_one_space(s: Seq<u8>, p: int)
    requires
        0 <= p,
        p + 1 < s.len(),
        s[p] == 32,
        !is_space(s[p + 1]),
    ensures
        skip_space(s, p) == p + 1,
        skip_space(s, p + 1) == p + 1,
{
    assert(skip_space(s, p + 1) == p + 1);
}

proof fn lemma_skip_space_stops(s: Seq<u8>, i: int)
    requires
        0 <= i <= s.len(),
    ensures
        skip_space(s, i) == s.len() || !is_space(s[skip_space(s, i)]),
        skip_space(s, skip_space(s, i)) == skip_space(s, i),
    decreases s.len() - i,
{
    if i < s.len() && is_space(s[i]) {
        lemma_skip_space_stops(s, i + 1);
    }
}

/// A parenthesised expression parses back as a term, at every operator level,
/// and as an inner expression, up to the whitespace after it.
proof fn lemma_paren(s: Seq<u8>, i: int, e: Node)
    requires
        printable(e),
        at(s, i, expr_text(e)),
    ensures
        ({
            let q = skip_space(s, i + expr_text(e).len());
            &&& i < q <= s.len()
            &&& term(s, i) == Some((e, q))
            &&& forall|m: nat| 1 <= m && no_op_from(s, q, m) ==> #[trigger] binary(s, i, m) == Some((e, q))
            &&& (no_op_from(s, q, 1) && (q < s.len() ==> s[q] != 58)) ==> inner(s, i) == Some((e, q))
        }),
    decreases e, 2nat,
{
    let c = core_text(e);
    let n = c.len() as int;
    lemma_at_split(s, i, seq![40u8] + c, seq![41u8]);
    lemma_at_split(s, i, seq![40u8], c);
    lemma_at_index(s, i, seq![40u8], 0);
    lemma_at_index(s, i + 1 + n, seq![41u8], 0);
    lemma_core_start(e);
    lemma_at_index(s, i + 1, c, 0);
    lemma_core(s, i + 1, e);
    let q = skip_space(s, i + n + 2);
    lemma_skip_space_bounds(s, i + n + 2);
    lemma_skip_space_stops(s, i + n + 2);
    assert(expr_text(e).len() == n + 2);
    assert(symbol(s, i, 40) == Some(i + 1));
    assert(symbol(s, i + 1 + n, 41) == Some(q));
    assert(parens(s, i) == Some((e, q)));
    assert(ident(s, i) is None);
    assert(call(s, i) is None);
    assert(skip_digits(s, i) == i);
    assert(crate::literal::mantissa_shape(s, i) is None);
    assert(number_literal(s, i) is None);
    assert(term(s, i) == Some((e, q)));
    assert forall|m: nat| 1 <= m && no_op_from(s, q, m) implies #[trigger] binary(s, i, m) == Some((e, q)) by {
        lemma_binary_of_term(s, i, e, q, m);
    }
    if no_op_from(s, q, 1) && (q < s.len() ==> s[q] != 58) {
        lemma_keyword_mismatch(s, i, kw_if(), 0);
        lemma_keyword_mismatch(s, i, kw_for(), 0);
        assert(if_expr(s, i) is None);
        assert(for_expr(s, i) is None);
        lemma_binary_of_term(s, i, e, q, 1);
        assert(symbol(s, q, 58) is None);
    }
}

/// The core text of an expression, closed by `)`, parses back as an inner expression.
proof fn lemma_core(s: Seq<u8>, i: int, e: Node)
    requires
        printable(e),
        at(s, i, core_text(e)),
        i + core_text(e).len() < s.len(),
        s[i + core_text(e).len()] == 41,
    ensures
        inner(s, i) == Some((e, i + core_text(e).len())),
    decreases e, 1nat,
{
    let end = i + core_text(e).len();
    lemma_no_op(s, end);
    assert(symbol(s, end, 58) is None);
    lemma_core_start(e);
    lemma_at_index(s, i, core_text(e), 0);
    match e {
        Node::Float(..) => {
            lemma_core_number(s, i, e);
        },
        Node::Var(..) => {
            lemma_core_var(s, i, e);
        },
        Node::BinOp(..) => {
            lemma_core_binop(s, i, e);
        },
        Node::Call(..) => {
            lemma_core_call(s, i, e);
        },
        Node::IfExpr(..) => {
            lemma_core_if(s, i, e);
        },
        Node::ForInExpr(..) => {
            lemma_core_for(s, i, e);
        },
        Node::Sequence(..) => {
            lemma_core_sequence(s, i, e);
        },
        _ => {},
    }
}

#[verifier::rlimit(40)]
proof fn lemma_core_number(s: Seq<u8>, i: int, e: Node)
    requires
        e is Float,
        printable(e),
        at(s, i, core_text(e)),
        i + core_text(e).len() < s.len(),
        s[i + core_text(e).len()] == 41,
        no_op_from(s, i + core_text(e).len(), 1),
        symbol(s, i + core_text(e).len(), 58) is None,
        core_text(e).len() > 0,
        !is_space(s[i]),
    ensures
        inner(s, i) == Some((e, i + core_text(e).len())),
    decreases e, 0nat,
{
    let end = i + core_text(e).len();
    match e {
        Node::Float(n) => {
            lemma_number_at(s, i, n);
            lemma_number_start(n);
            lemma_keyword_mismatch(s, i, kw_if(), 0);
            lemma_keyword_mismatch(s, i, kw_for(), 0);
            assert(if_expr(s, i) is None);
            assert(for_expr(s, i) is None);
            assert(ident(s, i) is None);
            assert(call(s, i) is None);
            assert(term(s, i) == Some((e, end)));
            lemma_binary_of_term(s, i, e, end, 1);
        },
        _ => {},
    }
}

#[verifier::rlimit(40)]
proof fn lemma_core_var(s: Seq<u8>, i: int, e: Node)
    requires
        e is Var,
        printable(e),
        at(s, i, core_text(e)),
        i + core_text(e).len() < s.len(),
        s[i + core_text(e).len()] == 41,
        no_op_from(s, i + core_text(e).len(), 1),
        symbol(s, i + core_text(e).len(), 58) is None,
        core_text(e).len() > 0,
        !is_space(s[i]),
    ensures
        inner(s, i) == Some((e, i + core_text(e).len())),
    decreases e, 0nat,
{
    let end = i + core_text(e).len();
    match e {
        Node::Var(x) => {
            lemma_name_bytes(x);
            lemma_ident_at(s, i, x);
            assert forall|k: int| i <= k < end implies !is_space(#[trigger] s[k]) by {
                lemma_at_index(s, i, name_bytes(x), k - i);
            }
            lemma_keyword_vs_word(s, i, kw_if(), x.len() as int);
            lemma_keyword_vs_word(s, i, kw_for(), x.len() as int);
            assert(if_expr(s, i) is None);
            assert(for_expr(s, i) is None);
            assert(symbol(s, end, 40) is None);
            assert(call(s, i) is None);
            assert(skip_digits(s, i) == i);
    assert(crate::literal::mantissa_shape(s, i) is None);
    assert(number_literal(s, i) is None);
            assert(term(s, i) == Some((e, end)));
            lemma_binary_of_term(s, i, e, end, 1);
        },
        _ => {},
    }
}

#[verifier::rlimit(40)]
proof fn lemma_core_binop(s: Seq<u8>, i: int, e: Node)
    requires
        e is BinOp,
        printable(e),
        at(s, i, core_text(e)),
        i + core_text(e).len() < s.len(),
        s[i + core_text(e).len()] == 41,
        no_op_from(s, i + core_text(e).len(), 1),
        symbol(s, i + core_text(e).len(), 58) is None,
        core_text(e).len() > 0,
        !is_space(s[i]),
    ensures
        inner(s, i) == Some((e, i + core_text(e).len())),
    decreases e, 0nat,
{
    let end = i + core_text(e).len();
    match e {
        Node::BinOp(op, l, r) => {
            let pl = expr_text(*l).len() as int;
            let mid = seq![32u8, op_byte(op), 32u8];
            lemma_at_split(s, i, expr_text(*l) + mid, expr_text(*r));
            lemma_at_split(s, i, expr_text(*l), mid);
            lemma_at_index(s, i + pl, mid, 0);
            lemma_at_index(s, i + pl, mid, 1);
            lemma_at_index(s, i + pl, mid, 2);
            let q1 = i + pl + 1;
            let pr = i + pl + 3;
            assert(end == pr + expr_text(*r).len());
            lemma_at_index(s, pr, expr_text(*r), 0);
            assert(skip_space(s, q1) == q1);
            assert(skip_space(s, i + pl) == q1);
            assert(skip_space(s, q1 + 1) == pr);
            assert(skip_space(s, end) == end);
            lemma_paren(s, i, *l);
            lemma_paren(s, pr, *r);
            lemma_at_index(s, i, expr_text(*l), 0);
            let lv = op_level(op);
            lemma_op_here(s, q1, op);
            let operand = if lv >= 4 {
                term(s, pr)
            } else {
                binary(s, pr, lv + 1)
            };
            assert(operand == Some((*r, end)));
            assert(op_at(s, end, lv) is None);
            assert(fold(s, end, lv, e) == (e, end));
            assert(fold(s, q1, lv, *l) == (e, end));
            let first = if lv >= 4 {
                term(s, i)
            } else {
                binary(s, i, lv + 1)
            };
            assert(first == Some((*l, q1)));
            assert(binary(s, i, lv) == Some((e, end)));
            lemma_binary_lift(s, i, e, end, 1, lv);
            lemma_keyword_mismatch(s, i, kw_if(), 0);
            lemma_keyword_mismatch(s, i, kw_for(), 0);
            assert(if_expr(s, i) is None);
            assert(for_expr(s, i) is None);
        },
        _ => {},
    }
}

proof fn lemma_call_unfold(s: Seq<u8>, i: int, f: Seq<char>, args: Seq<Node>, j: int, ae: int, end: int)
    requires
        ident(s, i) == Some((f, j)),
        i < j,
        symbol(s, j, 40) == Some(j + 1),
        j + 1 <= s.len(),
        arguments(s, j + 1) == (args, ae),
        symbol(s, ae, 41) == Some(end),
    ensures
        call(s, i) == Some((Node::Call(f, args), end)),
{
}

/// The text of a call's name and opening parenthesis, and the facts that follow from it.
proof fn lemma_call_layout(s: Seq<u8>, i: int, f: Seq<char>, args: Seq<Node>)
    requires
        is_name(f),
        at(s, i, name_bytes(f) + seq![40u8] + args_text(args, 0) + seq![41u8]),
        i + f.len() + args_text(args, 0).len() + 2 < s.len(),
        s[i + f.len() + args_text(args, 0).len() + 2] == 41,
    ensures
        ident(s, i) == Some((f, i + f.len())),
        symbol(s, i + f.len(), 40) == Some(i + f.len() + 1),
        at(s, i + f.len() + 1, args_text(args, 0)),
        s[i + f.len() + 1 + args_text(args, 0).len()] == 41,
        symbol(s, i + f.len() + 1 + args_text(args, 0).len(), 41) == Some(
            i + f.len() + args_text(args, 0).len() + 2,
        ),
        keyword(s, i, kw_if()) is None,
        keyword(s, i, kw_for()) is None,
{
    let j = i + f.len();
    let at_ = args_text(args, 0);
    lemma_name_bytes(f);
    lemma_at_split(s, i, name_bytes(f) + seq![40u8] + at_, seq![41u8]);
    lemma_at_split(s, i, name_bytes(f) + seq![40u8], at_);
    lemma_at_split(s, i, name_bytes(f), seq![40u8]);
    lemma_at_index(s, j, seq![40u8], 0);
    let ae = j + 1 + at_.len();
    lemma_at_index(s, ae, seq![41u8], 0);
    lemma_ident_at(s, i, f);
    if args.len() > 0 {
        lemma_args_text_split(args, 0);
        lemma_at_split(s, j + 1, expr_text(args[0]), args_tail(args, 1));
        lemma_at_index(s, j + 1, expr_text(args[0]), 0);
    }
    assert(skip_space(s, j + 1) == j + 1);
    assert(skip_space(s, ae + 1) == ae + 1);
    assert forall|k: int| i <= k < j implies !is_space(#[trigger] s[k]) by {
        lemma_at_index(s, i, name_bytes(f), k - i);
    }
    lemma_keyword_vs_word(s, i, kw_if(), f.len() as int);
    lemma_keyword_vs_word(s, i, kw_for(), f.len() as int);
}

#[verifier::rlimit(40)]
proof fn lemma_core_call(s: Seq<u8>, i: int, e: Node)
    requires
        e is Call,
        printable(e),
        at(s, i, core_text(e)),
        i + core_text(e).len() < s.len(),
        s[i + core_text(e).len()] == 41,
        no_op_from(s, i + core_text(e).len(), 1),
        symbol(s, i + core_text(e).len(), 58) is None,
        core_text(e).len() > 0,
        !is_space(s[i]),
    ensures
        inner(s, i) == Some((e, i + core_text(e).len())),
    decreases e, 0nat,
{
    let end = i + core_text(e).len();
    match e {
        Node::Call(f, args) => {
            lemma_name_bytes(f);
            let j = i + f.len();
            let ae = j + 1 + args_text(args, 0).len();
            assert(end == ae + 1);
            lemma_call_layout(s, i, f, args);
            lemma_arguments(s, j + 1, args);
            lemma_call_unfold(s, i, f, args, j, ae, end);
            assert(term(s, i) == Some((e, end)));
            lemma_binary_of_term(s, i, e, end, 1);
            assert(if_expr(s, i) is None);
            assert(for_expr(s, i) is None);
        },
        _ => {},
    }
}

#[verifier::rlimit(40)]
proof fn lemma_core_if(s: Seq<u8>, i: int, e: Node)
    requires
        e is IfExpr,
        printable(e),
        at(s, i, core_text(e)),
        i + core_text(e).len() < s.len(),
        s[i + core_text(e).len()] == 41,
        no_op_from(s, i + core_text(e).len(), 1),
        symbol(s, i + core_text(e).len(), 58) is None,
        core_text(e).len() > 0,
        !is_space(s[i]),
    ensures
        inner(s, i) == Some((e, i + core_text(e).len())),
    decreases e, 0nat,
{
    let end = i + core_text(e).len();
    match e {
        Node::IfExpr(c, t, f) => {
            let lc = expr_text(*c).len() as int;
            let lt = expr_text(*t).len() as int;
            let th = seq![32u8, 116, 104, 101, 110, 32];
            let el = seq![32u8, 101, 108, 115, 101, 32];
            assert(th =~= seq![32u8] + kw_then() + seq![32u8]);
            assert(el =~= seq![32u8] + kw_else() + seq![32u8]);
            lemma_at_split(s, i, kw_if() + expr_text(*c) + th + expr_text(*t) + el, expr_text(*f));
            lemma_at_split(s, i, kw_if() + expr_text(*c) + th + expr_text(*t), el);
            lemma_at_split(s, i, kw_if() + expr_text(*c) + th, expr_text(*t));
            lemma_at_split(s, i, kw_if() + expr_text(*c), th);
            lemma_at_split(s, i, kw_if(), expr_text(*c));
            let p1 = i + 3;
            let p2 = p1 + lc + 6;
            let p3 = p2 + lt + 6;
            lemma_at_split(s, p1 + lc, seq![32u8] + kw_then(), seq![32u8]);
            lemma_at_split(s, p1 + lc, seq![32u8], kw_then());
            lemma_at_split(s, p2 + lt, seq![32u8] + kw_else(), seq![32u8]);
            lemma_at_split(s, p2 + lt, seq![32u8], kw_else());
            lemma_at_index(s, p1 + lc, seq![32u8], 0);
            lemma_at_index(s, p1 + lc + 1, kw_then(), 0);
            lemma_at_index(s, p1 + lc + 5, seq![32u8], 0);
            lemma_at_index(s, p2 + lt, seq![32u8], 0);
            lemma_at_index(s, p2 + lt + 1, kw_else(), 0);
            lemma_at_index(s, p2 + lt + 5, seq![32u8], 0);
            lemma_at_index(s, p1, expr_text(*c), 0);
            lemma_at_index(s, p2, expr_text(*t), 0);
            lemma_at_index(s, p3, expr_text(*f), 0);
            lemma_at_index(s, i, kw_if(), 0);
            lemma_keyword_here(s, i, kw_if());
            assert(skip_space(s, p1) == p1);
            lemma_paren(s, p1, *c);
            assert(skip_space(s, p1 + lc + 1) == p1 + lc + 1);
            assert(skip_space(s, p1 + lc) == p1 + lc + 1);
            lemma_no_op(s, p1 + lc + 1);
            assert(binary(s, p1, 1) == Some((*c, p1 + lc + 1)));
            lemma_keyword_here(s, p1 + lc + 1, kw_then());
            assert(skip_space(s, p2) == p2);
            assert(skip_space(s, p1 + lc + 5) == p2);
            lemma_paren(s, p2, *t);
            assert(skip_space(s, p2 + lt + 1) == p2 + lt + 1);
            assert(skip_space(s, p2 + lt) == p2 + lt + 1);
            lemma_no_op(s, p2 + lt + 1);
            assert(binary(s, p2, 1) == Some((*t, p2 + lt + 1)));
            lemma_keyword_here(s, p2 + lt + 1, kw_else());
            assert(skip_space(s, p3) == p3);
            assert(skip_space(s, p2 + lt + 5) == p3);
            lemma_paren(s, p3, *f);
            assert(end == p3 + expr_text(*f).len());
            assert(skip_space(s, end) == end);
            assert(inner(s, p3) == Some((*f, end)));
            assert(if_expr(s, i) == Some((e, end)));
        },
        _ => {},
    }
}

#[verifier::rlimit(40)]
proof fn lemma_core_for(s: Seq<u8>, i: int, e: Node)
    requires
        e is ForInExpr,
        printable(e),
        at(s, i, core_text(e)),
        i + core_text(e).len() < s.len(),
        s[i + core_text(e).len()] == 41,
        no_op_from(s, i + core_text(e).len(), 1),
        symbol(s, i + core_text(e).len(), 58) is None,
        core_text(e).len() > 0,
        !is_space(s[i]),
    ensures
        inner(s, i) == Some((e, i + core_text(e).len())),
    decreases e, 0nat,
{
    let end = i + core_text(e).len();
    match e {
        Node::ForInExpr(x, a, c, st, b) => {
            let lx = x.len() as int;
            let la = expr_text(*a).len() as int;
            let lc = expr_text(*c).len() as int;
            let ls = expr_text(*st).len() as int;
            let eq = seq![32u8, 61, 32];
            let cm = seq![44u8, 32];
            let inw = seq![32u8, 105, 110, 32];
            assert(inw =~= seq![32u8] + kw_in() + seq![32u8]);
            lemma_name_bytes(x);
            let t8 = kw_for() + name_bytes(x) + eq + expr_text(*a) + cm + expr_text(*c) + cm + expr_text(*st) + inw;
            lemma_at_split(s, i, t8, expr_text(*b));
            lemma_at_split(s, i, kw_for() + name_bytes(x) + eq + expr_text(*a) + cm + expr_text(*c) + cm + expr_text(*st), inw);
            lemma_at_split(s, i, kw_for() + name_bytes(x) + eq + expr_text(*a) + cm + expr_text(*c) + cm, expr_text(*st));
            lemma_at_split(s, i, kw_for() + name_bytes(x) + eq + expr_text(*a) + cm + expr_text(*c), cm);
            lemma_at_split(s, i, kw_for() + name_bytes(x) + eq + expr_text(*a) + cm, expr_text(*c));
            lemma_at_split(s, i, kw_for() + name_bytes(x) + eq + expr_text(*a), cm);
            lemma_at_split(s, i, kw_for() + name_bytes(x) + eq, expr_text(*a));
            lemma_at_split(s, i, kw_for() + name_bytes(x), eq);
            lemma_at_split(s, i, kw_for(), name_bytes(x));
            let px = i + 4;
            let pa = px + lx + 3;
            let pc = pa + la + 2;
            let ps = pc + lc + 2;
            let pb = ps + ls + 4;
            assert(end == pb + expr_text(*b).len());
            lemma_at_split(s, ps + ls, seq![32u8] + kw_in(), seq![32u8]);
            lemma_at_split(s, ps + ls, seq![32u8], kw_in());
            lemma_at_index(s, i, kw_for(), 0);
            lemma_at_index(s, px, name_bytes(x), 0);
            lemma_at_index(s, px + lx, eq, 0);
            lemma_at_index(s, px + lx, eq, 1);
            lemma_at_index(s, px + lx, eq, 2);
            lemma_at_index(s, pa + la, cm, 0);
            lemma_at_index(s, pa + la, cm, 1);
            lemma_at_index(s, pc + lc, cm, 0);
            lemma_at_index(s, pc + lc, cm, 1);
            lemma_at_index(s, ps + ls, seq![32u8], 0);
            lemma_at_index(s, ps + ls + 1, kw_in(), 0);
            lemma_at_index(s, ps + ls + 3, seq![32u8], 0);
            lemma_at_index(s, pa, expr_text(*a), 0);
            lemma_at_index(s, pc, expr_text(*c), 0);
            lemma_at_index(s, ps, expr_text(*st), 0);
            lemma_at_index(s, pb, expr_text(*b), 0);
            lemma_keyword_mismatch(s, i, kw_if(), 0);
            assert(if_expr(s, i) is None);
            lemma_keyword_here(s, i, kw_for());
            assert(skip_space(s, px) == px);
            lemma_ident_at(s, px, x);
            lemma_one_space(s, px + lx);
            assert(skip_space(s, pa) == pa);
            assert(symbol(s, px + lx, 61) == Some(pa));
            lemma_paren(s, pa, *a);
            assert(skip_space(s, pa + la) == pa + la);
            lemma_no_op(s, pa + la);
            assert(inner(s, pa) == Some((*a, pa + la)));
            assert(skip_space(s, pc) == pc);
            assert(symbol(s, pa + la, 44) == Some(pc));
            lemma_paren(s, pc, *c);
            assert(skip_space(s, pc + lc) == pc + lc);
            lemma_no_op(s, pc + lc);
            assert(inner(s, pc) == Some((*c, pc + lc)));
            assert(skip_space(s, ps) == ps);
            assert(symbol(s, pc + lc, 44) == Some(ps));
            lemma_paren(s, ps, *st);
            assert(skip_space(s, ps + ls + 1) == ps + ls + 1);
            assert(skip_space(s, ps + ls) == ps + ls + 1);
            lemma_no_op(s, ps + ls + 1);
            assert(inner(s, ps) == Some((*st, ps + ls + 1)));
            lemma_keyword_here(s, ps + ls + 1, kw_in());
            assert(skip_space(s, pb) == pb);
            assert(skip_space(s, ps + ls + 3) == pb);
            lemma_paren(s, pb, *b);
            assert(skip_space(s, end) == end);
            assert(inner(s, pb) == Some((*b, end)));
            assert(for_expr(s, i) == Some((e, end)));
        },
        _ => {},
    }
}

#[verifier::rlimit(40)]
proof fn lemma_core_sequence(s: Seq<u8>, i: int, e: Node)
    requires
        e is Sequence,
        printable(e),
        at(s, i, core_text(e)),
        i + core_text(e).len() < s.len(),
        s[i + core_text(e).len()] == 41,
        no_op_from(s, i + core_text(e).len(), 1),
        symbol(s, i + core_text(e).len(), 58) is None,
        core_text(e).len() > 0,
        !is_space(s[i]),
    ensures
        inner(s, i) == Some((e, i + core_text(e).len())),
    decreases e, 0nat,
{
    let end = i + core_text(e).len();
    match e {
        Node::Sequence(a, b) => {
            let la = expr_text(*a).len() as int;
            let mid = seq![32u8, 58, 32];
            lemma_at_split(s, i, expr_text(*a) + mid, expr_text(*b));
            lemma_at_split(s, i, expr_text(*a), mid);
            lemma_at_index(s, i + la, mid, 0);
            lemma_at_index(s, i + la, mid, 1);
            lemma_at_index(s, i + la, mid, 2);
            let pb = i + la + 3;
            lemma_at_index(s, pb, expr_text(*b), 0);
            lemma_at_index(s, i, expr_text(*a), 0);
            assert(end == pb + expr_text(*b).len());
            lemma_paren(s, i, *a);
            assert(skip_space(s, i + la + 1) == i + la + 1);
            assert(skip_space(s, i + la) == i + la + 1);
            lemma_no_op(s, i + la + 1);
            assert(binary(s, i, 1) == Some((*a, i + la + 1)));
            assert(skip_space(s, pb) == pb);
            assert(symbol(s, i + la + 1, 58) == Some(pb));
            lemma_paren(s, pb, *b);
            assert(skip_space(s, end) == end);
            assert(inner(s, pb) == Some((*b, end)));
            lemma_keyword_mismatch(s, i, kw_if(), 0);
            lemma_keyword_mismatch(s, i, kw_for(), 0);
            assert(if_expr(s, i) is None);
            assert(for_expr(s, i) is None);
        },
        _ => {},
    }
}

/// The arguments' text, closed by `)`, parses back to the arguments.
proof fn lemma_arguments(s: Seq<u8>, p: int, args: Seq<Node>)
    requires
        printable_args(args, 0),
        at(s, p, args_text(args, 0)),
        p + args_text(args, 0).len() < s.len(),
        s[p + args_text(args, 0).len()] == 41,
    ensures
        arguments(s, p) == (args, p + args_text(args, 0).len()),
    decreases args, args.len() + 1,
{
    if args.len() == 0 {
        lemma_inner_at_close(s, p);
        assert(args =~= seq![]);
    } else {
        lemma_args_text_split(args, 0);
        lemma_at_split(s, p, expr_text(args[0]), args_tail(args, 1));
        let q = p + expr_text(args[0]).len();
        if args.len() > 1 {
            lemma_at_index(s, q, args_tail(args, 1), 0);
        }
        assert(skip_space(s, q) == q);
        lemma_no_op(s, q);
        lemma_paren(s, p, args[0]);
        assert(inner(s, p) == Some((args[0], q)));
        lemma_more_args(s, q, args, 1);
        assert(seq![args[0]] =~= args.subrange(0, 1));
    }
}

proof fn lemma_more_args(s: Seq<u8>, p: int, args: Seq<Node>, k: int)
    requires
        1 <= k <= args.len(),
        printable_args(args, k),
        at(s, p, args_tail(args, k)),
        p + args_tail(args, k).len() < s.len(),
        s[p + args_tail(args, k).len()] == 41,
    ensures
        more_arguments(s, p, args.subrange(0, k)) == (args, p + args_tail(args, k).len()),
    decreases args, args.len() - k,
{
    if k == args.len() {
        assert(args.subrange(0, k) =~= args);
        assert(symbol(s, p, 44) is None);
    } else {
        let a = expr_text(args[k]);
        lemma_args_text_split(args, k);
        assert(args_tail(args, k) =~= seq![44u8, 32] + a + args_tail(args, k + 1));
        lemma_at_split(s, p, seq![44u8, 32] + a, args_tail(args, k + 1));
        lemma_at_split(s, p, seq![44u8, 32], a);
        lemma_at_index(s, p, seq![44u8, 32], 0);
        lemma_at_index(s, p, seq![44u8, 32], 1);
        lemma_at_index(s, p + 2, a, 0);
        let q = p + 2 + a.len();
        if k + 1 < args.len() {
            lemma_at_index(s, q, args_tail(args, k + 1), 0);
        }
        assert(skip_space(s, p + 2) == p + 2);
        assert(symbol(s, p, 44) == Some(p + 2));
        assert(skip_space(s, q) == q);
        lemma_no_op(s, q);
        lemma_paren(s, p + 2, args[k]);
        assert(inner(s, p + 2) == Some((args[k], q)));
        assert(args.subrange(0, k).push(args[k]) =~= args.subrange(0, k + 1));
        lemma_more_args(s, q, args, k + 1);
    }
}

/// A space and the names from index `k` on.
pub open spec fn names_tail(xs: Seq<Seq<char>>, k: int) -> Seq<u8> {
    if 0 <= k < xs.len() {
        seq![32u8] + names_text(xs, k)
    } else {
        seq![]
    }
}

proof fn lemma_names_text_split(xs: Seq<Seq<char>>, k: int)
    requires
        0 <= k < xs.len(),
    ensures
        names_text(xs, k) == name_bytes(xs[k]) + names_tail(xs, k + 1),
{
    assert(names_text(xs, k) =~= name_bytes(xs[k]) + names_tail(xs, k + 1));
}

/// The first name of a non-empty list, and where it ends.
proof fn lemma_first_name(s: Seq<u8>, p: int, xs: Seq<Seq<char>>, k: int)
    requires
        0 <= k < xs.len(),
        all_names(xs),
        at(s, p, names_text(xs, k)),
        p + names_text(xs, k).len() < s.len(),
        s[p + names_text(xs, k).len()] == 41,
    ensures
        ident(s, p) == Some((xs[k], p + xs[k].len())),
        at(s, p + xs[k].len(), names_tail(xs, k + 1)),
        p + xs[k].len() + names_tail(xs, k + 1).len() == p + names_text(xs, k).len(),
        !is_space(s[p]),
{
    lemma_names_text_split(xs, k);
    lemma_name_bytes(xs[k]);
    lemma_at_split(s, p, name_bytes(xs[k]), names_tail(xs, k + 1));
    lemma_at_index(s, p, name_bytes(xs[k]), 0);
    if k + 1 < xs.len() {
        lemma_at_index(s, p + xs[k].len(), names_tail(xs, k + 1), 0);
    }
    lemma_ident_at(s, p, xs[k]);
}

proof fn lemma_extern_more(s: Seq<u8>, p: int, xs: Seq<Seq<char>>, k: int)
    requires
        1 <= k <= xs.len(),
        all_names(xs),
        at(s, p, names_tail(xs, k)),
        p + names_tail(xs, k).len() < s.len(),
        s[p + names_tail(xs, k).len()] == 41,
    ensures
        extern_more(s, p, xs.subrange(0, k)) == (xs, p + names_tail(xs, k).len()),
    decreases xs.len() - k,
{
    if k == xs.len() {
        assert(xs.subrange(0, k) =~= xs);
    } else {
        lemma_at_split(s, p, seq![32u8], names_text(xs, k));
        lemma_at_index(s, p, seq![32u8], 0);
        lemma_first_name(s, p + 1, xs, k);
        assert(xs.subrange(0, k).push(xs[k]) =~= xs.subrange(0, k + 1));
        lemma_extern_more(s, p + 1 + xs[k].len(), xs, k + 1);
    }
}

proof fn lemma_def_more(s: Seq<u8>, p: int, xs: Seq<Seq<char>>, k: int)
    requires
        1 <= k <= xs.len(),
        all_names(xs),
        at(s, p, names_tail(xs, k)),
        p + names_tail(xs, k).len() < s.len(),
        s[p + names_tail(xs, k).len()] == 41,
    ensures
        def_more(s, p, xs.subrange(0, k)) == (xs, p + names_tail(xs, k).len()),
    decreases xs.len() - k,
{
    if k == xs.len() {
        assert(xs.subrange(0, k) =~= xs);
        assert(skip_space(s, p) == p);
    } else {
        lemma_at_split(s, p, seq![32u8], names_text(xs, k));
        lemma_at_index(s, p, seq![32u8], 0);
        lemma_first_name(s, p + 1, xs, k);
        lemma_one_space(s, p);
        assert(xs.subrange(0, k).push(xs[k]) =~= xs.subrange(0, k + 1));
        lemma_def_more(s, p + 1 + xs[k].len(), xs, k + 1);
    }
}

/// A parameter list, closed by `)`, parses back to its names.
proof fn lemma_params(s: Seq<u8>, p: int, xs: Seq<Seq<char>>)
    requires
        all_names(xs),
        at(s, p, names_text(xs, 0)),
        p + names_text(xs, 0).len() < s.len(),
        s[p + names_text(xs, 0).len()] == 41,
    ensures
        extern_params(s, p) == (xs, p + names_text(xs, 0).len()),
        def_params(s, p) == (xs, p + names_text(xs, 0).len()),
        !is_space(s[p]),
{
    if xs.len() == 0 {
        assert(xs =~= seq![]);
        assert(ident(s, p) is None);
    } else {
        lemma_first_name(s, p, xs, 0);
        lemma_extern_more(s, p + xs[0].len(), xs, 1);
        lemma_def_more(s, p + xs[0].len(), xs, 1);
        assert(seq![xs[0]] =~= xs.subrange(0, 1));
    }
}

/// The header `<keyword><name>(<params>)` of a declaration.
proof fn lemma_header(s: Seq<u8>, i: int, w: Seq<u8>, f: Seq<char>, ps: Seq<Seq<char>>)
    requires
        is_name(f),
        all_names(ps),
        w.len() > 0,
        !is_space(w[0]),
        at(s, i, w + name_bytes(f) + seq![40u8] + names_text(ps, 0) + seq![41u8]),
    ensures
        ({
            let j = i + w.len() + f.len();
            let pe = j + 1 + names_text(ps, 0).len();
            &&& keyword(s, i, w) == Some(i + w.len())
            &&& ident(s, i + w.len()) == Some((f, j))
            &&& symbol(s, j, 40) == Some(j + 1)
            &&& extern_params(s, j + 1) == (ps, pe)
            &&& def_params(s, j + 1) == (ps, pe)
            &&& s[pe] == 41
            &&& pe + 1 == i + (w + name_bytes(f) + seq![40u8] + names_text(ps, 0) + seq![41u8]).len()
        }),
{
    let j = i + w.len() + f.len();
    let nt = names_text(ps, 0);
    let pe = j + 1 + nt.len();
    lemma_name_bytes(f);
    lemma_at_split(s, i, w + name_bytes(f) + seq![40u8] + nt, seq![41u8]);
    lemma_at_split(s, i, w + name_bytes(f) + seq![40u8], nt);
    lemma_at_split(s, i, w + name_bytes(f), seq![40u8]);
    lemma_at_split(s, i, w, name_bytes(f));
    lemma_at_index(s, i, w, 0);
    lemma_at_index(s, i + w.len(), name_bytes(f), 0);
    lemma_at_index(s, j, seq![40u8], 0);
    lemma_at_index(s, pe, seq![41u8], 0);
    lemma_keyword_here(s, i, w);
    assert(skip_space(s, i + w.len()) == i + w.len());
    lemma_ident_at(s, i + w.len(), f);
    lemma_params(s, j + 1, ps);
    assert(skip_space(s, j + 1) == j + 1);
}

/// An entry's text, followed by `;` or the end of the text, parses back to it.
#[verifier::rlimit(40)]
proof fn lemma_declaration(s: Seq<u8>, i: int, d: Node)
    requires
        printable_declaration(d),
        at(s, i, declaration_text(d)),
        i + declaration_text(d).len() == s.len() || s[i + declaration_text(d).len()] == 59,
    ensures
        declaration(s, i) == Some((d, i + declaration_text(d).len())),
{
    let end = i + declaration_text(d).len();
    lemma_no_op(s, end);
    match d {
        Node::Extern(f, ps) => {
            lemma_header(s, i, kw_extern(), f, ps);
            assert(symbol(s, end - 1, 41) == Some(end));
            assert(extern_decl(s, i) == Some((d, end)));
        },
        Node::Function(f, ps, b) => {
            let h = kw_def() + name_bytes(f) + seq![40u8] + names_text(ps, 0) + seq![41u8];
            assert(declaration_text(d) =~= h + seq![32u8] + expr_text(*b));
            lemma_at_split(s, i, h + seq![32u8], expr_text(*b));
            lemma_at_split(s, i, h, seq![32u8]);
            lemma_header(s, i, kw_def(), f, ps);
            let pe = i + h.len() - 1;
            lemma_at_index(s, pe + 1, seq![32u8], 0);
            lemma_at_index(s, pe + 2, expr_text(*b), 0);
            lemma_at_index(s, i, h, 0);
            assert(h[0] == 100);
            lemma_keyword_mismatch(s, i, kw_extern(), 0);
            assert(extern_decl(s, i) is None);
            lemma_one_space(s, pe + 1);
            assert(symbol(s, pe, 41) == Some(pe + 2));
            lemma_paren(s, pe + 2, *b);
            assert(skip_space(s, end) == end);
            assert(inner(s, pe + 2) == Some((*b, end)));
            assert(def_decl(s, i) == Some((d, end)));
        },
        _ => {
            lemma_at_index(s, i, expr_text(d), 0);
            lemma_keyword_mismatch(s, i, kw_extern(), 0);
            lemma_keyword_mismatch(s, i, kw_def(), 0);
            assert(extern_decl(s, i) is None);
            assert(def_decl(s, i) is None);
            lemma_paren(s, i, d);
            assert(skip_space(s, end) == end);
        },
    }
}

/// The separator and the entries from index `k` on.
pub open spec fn program_tail(ds: Seq<Node>, k: int) -> Seq<u8> {
    if 0 <= k < ds.len() {
        seq![59u8, 32] + program_text(ds, k)
    } else {
        seq![]
    }
}

proof fn lemma_program_text_split(ds: Seq<Node>, k: int)
    requires
        0 <= k < ds.len(),
    ensures
        program_text(ds, k) == declaration_text(ds[k]) + program_tail(ds, k + 1),
{
    assert(program_text(ds, k) =~= declaration_text(ds[k]) + program_tail(ds, k + 1));
}

proof fn lemma_declaration_start(d: Node)
    requires
        printable_declaration(d),
    ensures
        declaration_text(d).len() > 0,
        !is_space(declaration_text(d)[0]),
        declaration_text(d)[0] != 35,
{
}

proof fn lemma_more_declarations(s: Seq<u8>, p: int, ds: Seq<Node>, k: int)
    requires
        1 <= k <= ds.len(),
        forall|m: int| 0 <= m < ds.len() ==> printable_declaration(#[trigger] ds[m]),
        at(s, p, program_tail(ds, k)),
        p + program_tail(ds, k).len() == s.len(),
    ensures
        more_declarations(s, p, ds.subrange(0, k)) == (ds, s.len() as int),
    decreases ds.len() - k,
{
    if k == ds.len() {
        assert(ds.subrange(0, k) =~= ds);
    } else {
        let d = ds[k];
        lemma_program_text_split(ds, k);
        assert(program_tail(ds, k) =~= seq![59u8, 32] + declaration_text(d) + program_tail(ds, k + 1));
        lemma_at_split(s, p, seq![59u8, 32] + declaration_text(d), program_tail(ds, k + 1));
        lemma_at_split(s, p, seq![59u8, 32], declaration_text(d));
        lemma_at_index(s, p, seq![59u8, 32], 0);
        lemma_at_index(s, p, seq![59u8, 32], 1);
        lemma_declaration_start(d);
        lemma_at_index(s, p + 2, declaration_text(d), 0);
        let q = p + 2 + declaration_text(d).len();
        if k + 1 < ds.len() {
            lemma_at_index(s, q, program_tail(ds, k + 1), 0);
        }
        assert(skip_trivia(s, p) == p);
        assert(skip_trivia(s, p + 2) == p + 2);
        assert(skip_trivia(s, p + 1) == p + 2);
        lemma_declaration(s, p + 2, d);
        assert(ds.subrange(0, k).push(d) =~= ds.subrange(0, k + 1));
        lemma_more_declarations(s, q, ds, k + 1);
    }
}

/// Parsing the canonical text of a program gives the program back, when
/// every entry is printable.
pub proof fn lemma_round_trip(ds: Seq<Node>)
    requires
        ds.len() > 0,
        forall|m: int| 0 <= m < ds.len() ==> printable_declaration(#[trigger] ds[m]),
    ensures
        program(program_text(ds, 0)) == Ok::<Seq<Node>, crate::parser::ParseError>(ds),
{
    let s = program_text(ds, 0);
    let d = ds[0];
    lemma_program_text_split(ds, 0);
    assert(s.subrange(0, s.len() as int) =~= s);
    lemma_at_split(s, 0, declaration_text(d), program_tail(ds, 1));
    lemma_declaration_start(d);
    lemma_at_index(s, 0, declaration_text(d), 0);
    let q = declaration_text(d).len() as int;
    if ds.len() > 1 {
        lemma_at_index(s, q, program_tail(ds, 1), 0);
    }
    assert(skip_trivia(s, 0) == 0);
    lemma_declaration(s, 0, d);
    lemma_more_declarations(s, q, ds, 1);
    assert(seq![d] =~= ds.subrange(0, 1));
    assert(skip_trivia(s, s.len() as int) == s.len());
    assert(tail_end(s, s.len() as int) == s.len());
}

fn push_all(out: &mut Vec<u8>, b: &[u8])
    ensures
        final(out)@ == old(out)@ + b@,
{
    let mut k: usize = 0;
    while k < b.len()
        invariant
            k <= b@.len(),
            out@ == old(out)@ + b@.subrange(0, k as int),
        decreases b@.len() - k,
    {
        out.push(b[k]);
        proof {
            assert(old(out)@ + b@.subrange(0, k + 1) =~= (old(out)@ + b@.subrange(0, k as int)).push(b@[k as int]));
        }
        k = k + 1;
    }
    proof {
        assert(b@.subrange(0, b@.len() as int) =~= b@);
    }
}

fn write_decimal(out: &mut Vec<u8>, m: u128)
    ensures
        final(out)@ == old(out)@ + decimal(m as nat),
    decreases m,
{
    if m >= 10 {
        write_decimal(out, m / 10);
        out.push((48 + m % 10) as u8);
        proof {
            assert(old(out)@ + decimal(m as nat) =~= (old(out)@ + decimal((m / 10) as nat)).push((48 + m % 10) as u8));
        }
    } else {
        out.push((48 + m) as u8);
        proof {
            assert(old(out)@ + decimal(m as nat) =~= old(out)@.push((48 + m) as u8));
        }
    }
}

fn write_number(out: &mut Vec<u8>, n: &Number)
    requires
        -0xffff_ffff_ffff_ffff <= n.exponent <= 0xffff_ffff_ffff_ffff,
    ensures
        final(out)@ == old(out)@ + number_text(n@),
{
    let ghost o = out@;
    if n.negative {
        out.push(45);
    }
    let ghost o1 = out@;
    if n.digits.len() == 0 {
        out.push(48);
    } else {
        push_all(out, n.digits.as_slice());
    }
    proof {
        assert(out@ =~= o1 + mantissa_text(n@));
    }
    out.push(101);
    let ghost o2 = out@;
    if n.exponent < 0 {
        out.push(45);
    }
    let ghost o3 = out@;
    let magnitude: u128 = if n.exponent < 0 { (-n.exponent) as u128 } else { n.exponent as u128 };
    write_decimal(out, magnitude);
    proof {
        let a: Seq<u8> = if n.negative { seq![45u8] } else { seq![] };
        let b: Seq<u8> = if n.exponent < 0 { seq![45u8] } else { seq![] };
        assert(o1 =~= o + a);
        assert(o3 =~= o2 + b);
        assert(out@ =~= o + number_text(n@));
    }
}

fn write_name(out: &mut Vec<u8>, x: &String)
    requires
        is_name(x@),
    ensures
        final(out)@ == old(out)@ + name_bytes(x@),
{
    let t = x.as_str();
    let n = t.unicode_len();
    let mut k: usize = 0;
    while k < n
        invariant
            t@ == x@,
            n == x@.len(),
            k <= n,
            is_name(x@),
            out@ == old(out)@ + name_bytes(x@).subrange(0, k as int),
        decreases n - k,
    {
        let c = t.get_char(k);
        proof {
            assert(chars_of(name_bytes(x@))[k as int] == x@[k as int]);
        }
        out.push((c as u32) as u8);
        proof {
            assert(old(out)@ + name_bytes(x@).subrange(0, k + 1) =~= (old(out)@ + name_bytes(x@).subrange(
                0,
                k as int,
            )).push(name_bytes(x@)[k as int]));
        }
        k = k + 1;
    }
    proof {
        assert(name_bytes(x@).subrange(0, n as int) =~= name_bytes(x@));
    }
}

#[verifier::rlimit(60)]
fn write_expr(out: &mut Vec<u8>, e: &Expr)
    requires
        printable(e.node()),
    ensures
        final(out)@ == old(out)@ + expr_text(e.node()),
    decreases e,
{
    let ghost o = out@;
    out.push(40);
    match e {
        Expr::Float(n) => {
            write_number(out, n);
        },
        Expr::Var(x) => {
            write_name(out, x);
        },
        Expr::BinOp(op, l, r) => {
            write_expr(out, l);
            let c: u8 = match op {
                Op::Plus => 43,
                Op::Minus => 45,
                Op::Multiply => 42,
                Op::Divide => 47,
                Op::LessThan => 60,
                Op::GreaterThan => 62,
                Op::BitwiseOr => 124,
                Op::BitwiseAnd => 38,
            };
            out.push(32);
            out.push(c);
            out.push(32);
            write_expr(out, r);
        },
        Expr::Call(f, args) => {
            proof {
                crate::ast::lemma_call_node(*f, *args);
            }
            write_name(out, f);
            out.push(40);
            let ghost start = out@;
            let mut k: usize = 0;
            while k < args.len()
                invariant
                    k <= args@.len(),
                    printable_args(nodes(args@), 0),
                    *e == Expr::Call(*f, *args),
                    out@ == start + args_prefix(nodes(args@), k as int),
                decreases args@.len() - k,
            {
                proof {
                    assert(decreases_to!(*e => (*e)->Call_1));
                    assert(decreases_to!((*e)->Call_1 => (*e)->Call_1@));
                    assert(decreases_to!((*e)->Call_1@ => (*e)->Call_1@[k as int]));
                    lemma_printable_arg(nodes(args@), 0, k as int);
                }
                if k > 0 {
                    out.push(44);
                    out.push(32);
                }
                write_expr(out, &args[k]);
                proof {
                    lemma_args_prefix_step(nodes(args@), k as int);
                }
                k = k + 1;
            }
            proof {
                lemma_args_prefix_full(nodes(args@));
            }
            out.push(41);
        },
        Expr::IfExpr(c, t, f) => {
            push_all(out, [105u8, 102, 32].as_slice());
            write_expr(out, c);
            push_all(out, [32u8, 116, 104, 101, 110, 32].as_slice());
            write_expr(out, t);
            push_all(out, [32u8, 101, 108, 115, 101, 32].as_slice());
            write_expr(out, f);
        },
        Expr::ForInExpr(x, a, c, st, b) => {
            push_all(out, [102u8, 111, 114, 32].as_slice());
            write_name(out, x);
            push_all(out, [32u8, 61, 32].as_slice());
            write_expr(out, a);
            push_all(out, [44u8, 32].as_slice());
            write_expr(out, c);
            push_all(out, [44u8, 32].as_slice());
            write_expr(out, st);
            push_all(out, [32u8, 105, 110, 32].as_slice());
            write_expr(out, b);
        },
        Expr::Sequence(a, b) => {
            write_expr(out, a);
            push_all(out, [32u8, 58, 32].as_slice());
            write_expr(out, b);
        },
        Expr::Function(..) | Expr::Extern(..) => {},
    }
    out.push(41);
    proof {
        assert(out@ =~= o + expr_text(e.node()));
    }
}

/// The texts of the first `k` arguments, separated by `, `.
pub open spec fn args_prefix(args: Seq<Node>, k: int) -> Seq<u8>
    decreases k,
{
    if k <= 0 {
        seq![]
    } else {
        args_prefix(args, k - 1) + (if k > 1 { seq![44u8, 32] } else { seq![] }) + expr_text(args[k - 1])
    }
}

proof fn lemma_args_prefix_step(args: Seq<Node>, k: int)
    requires
        0 <= k,
    ensures
        args_prefix(args, k + 1) == args_prefix(args, k) + (if k > 0 { seq![44u8, 32] } else { seq![] })
            + expr_text(args[k]),
{
}

proof fn lemma_args_prefix_tail(args: Seq<Node>, k: int)
    requires
        1 <= k <= args.len(),
    ensures
        args_prefix(args, k) + args_tail(args, k) == args_text(args, 0),
    decreases k,
{
    if k == 1 {
        lemma_args_text_split(args, 0);
        assert(args_prefix(args, 0) == Seq::<u8>::empty());
        assert(args_prefix(args, 1) =~= expr_text(args[0]));
    } else {
        lemma_args_prefix_tail(args, k - 1);
        lemma_args_text_split(args, k - 1);
        assert(args_prefix(args, k) + args_tail(args, k) =~= args_prefix(args, k - 1) + args_tail(args, k - 1));
    }
}

proof fn lemma_args_prefix_full(args: Seq<Node>)
    ensures
        args_prefix(args, args.len() as int) == args_text(args, 0),
{
    if args.len() == 0 {
        assert(args_prefix(args, 0) == args_text(args, 0));
    } else {
        lemma_args_prefix_tail(args, args.len() as int);
        assert(args_prefix(args, args.len() as int) + args_tail(args, args.len() as int) =~= args_prefix(
            args,
            args.len() as int,
        ));
    }
}

proof fn lemma_printable_arg(args: Seq<Node>, j: int, k: int)
    requires
        0 <= j <= k < args.len(),
        printable_args(args, j),
    ensures
        printable(args[k]),
    decreases k - j,
{
    if j < k {
        lemma_printable_arg(args, j + 1, k);
    }
}

fn write_names(out: &mut Vec<u8>, xs: &Vec<String>)
    requires
        all_names(xs@.map_values(|n: String| n@)),
    ensures
        final(out)@ == old(out)@ + names_text(xs@.map_values(|n: String| n@), 0),
{
    let ghost ns = xs@.map_values(|n: String| n@);
    let mut k: usize = 0;
    while k < xs.len()
        invariant
            ns == xs@.map_values(|n: String| n@),
            all_names(ns),
            k <= xs@.len(),
            out@ + names_suffix(ns, k as int) == old(out)@ + names_text(ns, 0),
        decreases xs@.len() - k,
    {
        proof {
            assert(ns[k as int] == xs@[k as int]@);
            lemma_names_text_split(ns, k as int);
        }
        if k > 0 {
            out.push(32);
        }
        write_name(out, &xs[k]);
        proof {
            assert(out@ + names_suffix(ns, k + 1) =~= old(out)@ + names_text(ns, 0));
        }
        k = k + 1;
    }
    proof {
        assert(out@ + names_suffix(ns, k as int) =~= out@);
    }
}

/// What remains of the names' text after the first `k` names are written.
pub open spec fn names_suffix(xs: Seq<Seq<char>>, k: int) -> Seq<u8> {
    if k == 0 {
        names_text(xs, 0)
    } else {
        names_tail(xs, k)
    }
}

fn write_declaration(out: &mut Vec<u8>, d: &Expr)
    requires
        printable_declaration(d.node()),
    ensures
        final(out)@ == old(out)@ + declaration_text(d.node()),
{
    let ghost o = out@;
    match d {
        Expr::Function(f, ps, b) => {
            push_all(out, [100u8, 101, 102, 32].as_slice());
            write_name(out, f);
            out.push(40);
            write_names(out, ps);
            out.push(41);
            out.push(32);
            write_expr(out, b);
        },
        Expr::Extern(f, ps) => {
            push_all(out, [101u8, 120, 116, 101, 114, 110, 32].as_slice());
            write_name(out, f);
            out.push(40);
            write_names(out, ps);
            out.push(41);
        },
        _ => {
            write_expr(out, d);
        },
    }
    proof {
        assert(out@ =~= o + declaration_text(d.node()));
    }
}

/// The canonical text of a program: each entry printed with every expression
/// in parentheses, entries separated by `; `. Parsing it gives the program
/// back (see `lemma_round_trip`).
pub fn print_program(p: &Program) -> (r: String)
    requires
        forall|k: int| 0 <= k < p@.len() ==> printable_declaration(#[trigger] nodes(p@)[k]),
    ensures
        r@ == chars_of(program_text(nodes(p@), 0)),
{
    let ghost ds = nodes(p@);
    let mut out: Vec<u8> = Vec::new();
    let mut k: usize = 0;
    while k < p.len()
        invariant
            ds == nodes(p@),
            forall|m: int| 0 <= m < p@.len() ==> printable_declaration(#[trigger] nodes(p@)[m]),
            k <= p@.len(),
            out@ + program_suffix(ds, k as int) == program_text(ds, 0),
        decreases p@.len() - k,
    {
        proof {
            lemma_program_text_split(ds, k as int);
            assert(ds[k as int] == p@[k as int].node());
        }
        if k > 0 {
            out.push(59);
            out.push(32);
        }
        write_declaration(&mut out, &p[k]);
        proof {
            assert(out@ + program_suffix(ds, k + 1) =~= program_text(ds, 0));
        }
        k = k + 1;
    }
    proof {
        assert(out@ + program_suffix(ds, k as int) =~= out@);
    }
    let mut r = String::new();
    let mut j: usize = 0;
    while j < out.len()
        invariant
            j <= out@.len(),
            r@ == chars_of(out@.subrange(0, j as int)),
        decreases out@.len() - j,
    {
        push_char(&mut r, out[j] as char);
        proof {
            assert(chars_of(out@.subrange(0, j + 1)) =~= chars_of(out@.subrange(0, j as int)).push(out@[j as int] as char));
        }
        j = j + 1;
    }
    proof {
        assert(out@.subrange(0, out@.len() as int) =~= out@);
    }
    r
}

/// What remains of the program's text after the first `k` entries are written.
pub open spec fn program_suffix(ds: Seq<Node>, k: int) -> Seq<u8> {
    if k == 0 {
        program_text(ds, 0)
    } else {
        program_tail(ds, k)
    }
}

/// Every byte is an ASCII code.
pub open spec fn ascii(b: Seq<u8>) -> bool {
    forall|i: int| 0 <= i < b.len() ==> #[trigger] b[i] < 128
}

proof fn lemma_ascii_cat(a: Seq<u8>, b: Seq<u8>)
    requires
        ascii(a),
        ascii(b),
    ensures
        ascii(a + b),
{
    assert forall|i: int| 0 <= i < (a + b).len() implies #[trigger] (a + b)[i] < 128 by {
        if i < a.len() {
            assert((a + b)[i] == a[i]);
        } else {
            assert((a + b)[i] == b[i - a.len()]);
        }
    }
}

proof fn lemma_ascii_decimal(m: nat)
    ensures
        ascii(decimal(m)),
{
    lemma_decimal(m);
}

proof fn lemma_ascii_name(x: Seq<char>)
    requires
        is_name(x),
    ensures
        ascii(name_bytes(x)),
{
}

proof fn lemma_ascii_number(n: NumberV)
    requires
        n.wf(),
    ensures
        ascii(number_text(n)),
{
    let a: Seq<u8> = if n.negative { seq![45u8] } else { seq![] };
    let d = mantissa_text(n);
    let b: Seq<u8> = if n.exponent < 0 { seq![45u8] } else { seq![] };
    let ev: nat = if n.exponent < 0 { (-n.exponent) as nat } else { n.exponent as nat };
    lemma_ascii_decimal(ev);
    lemma_ascii_cat(a, d);
    lemma_ascii_cat(a + d, seq![101u8]);
    lemma_ascii_cat(a + d + seq![101u8], b);
    lemma_ascii_cat(a + d + seq![101u8] + b, decimal(ev));
}

proof fn lemma_ascii_expr(e: Node)
    requires
        printable(e),
    ensures
        ascii(expr_text(e)),
        ascii(core_text(e)),
    decreases e, 1nat,
{
    match e {
        Node::Float(n) => {
            lemma_ascii_number(n);
        },
        Node::Var(x) => {
            lemma_ascii_name(x);
        },
        Node::BinOp(op, l, r) => {
            lemma_ascii_expr(*l);
            lemma_ascii_expr(*r);
            lemma_ascii_cat(expr_text(*l), seq![32u8, op_byte(op), 32u8]);
            lemma_ascii_cat(expr_text(*l) + seq![32u8, op_byte(op), 32u8], expr_text(*r));
        },
        Node::Call(f, args) => {
            lemma_ascii_name(f);
            lemma_ascii_args(args, 0);
            lemma_ascii_cat(name_bytes(f), seq![40u8]);
            lemma_ascii_cat(name_bytes(f) + seq![40u8], args_text(args, 0));
            lemma_ascii_cat(name_bytes(f) + seq![40u8] + args_text(args, 0), seq![41u8]);
        },
        Node::IfExpr(c, t, f) => {
            lemma_ascii_expr(*c);
            lemma_ascii_expr(*t);
            lemma_ascii_expr(*f);
            let p0 = seq![105u8, 102, 32];
            let p1 = seq![32u8, 116, 104, 101, 110, 32];
            let p2 = seq![32u8, 101, 108, 115, 101, 32];
            lemma_ascii_cat(p0, expr_text(*c));
            lemma_ascii_cat(p0 + expr_text(*c), p1);
            lemma_ascii_cat(p0 + expr_text(*c) + p1, expr_text(*t));
            lemma_ascii_cat(p0 + expr_text(*c) + p1 + expr_text(*t), p2);
            lemma_ascii_cat(p0 + expr_text(*c) + p1 + expr_text(*t) + p2, expr_text(*f));
        },
        Node::ForInExpr(x, a, c, st, b) => {
            lemma_ascii_name(x);
            lemma_ascii_expr(*a);
            lemma_ascii_expr(*c);
            lemma_ascii_expr(*st);
            lemma_ascii_expr(*b);
            let q0 = seq![102u8, 111, 114, 32];
            let q1 = seq![32u8, 61, 32];
            let q2 = seq![44u8, 32];
            let q3 = seq![32u8, 105, 110, 32];
            lemma_ascii_cat(q0, name_bytes(x));
            lemma_ascii_cat(q0 + name_bytes(x), q1);
            lemma_ascii_cat(q0 + name_bytes(x) + q1, expr_text(*a));
            lemma_ascii_cat(q0 + name_bytes(x) + q1 + expr_text(*a), q2);
            lemma_ascii_cat(q0 + name_bytes(x) + q1 + expr_text(*a) + q2, expr_text(*c));
            lemma_ascii_cat(q0 + name_bytes(x) + q1 + expr_text(*a) + q2 + expr_text(*c), q2);
            lemma_ascii_cat(q0 + name_bytes(x) + q1 + expr_text(*a) + q2 + expr_text(*c) + q2, expr_text(*st));
            lemma_ascii_cat(
                q0 + name_bytes(x) + q1 + expr_text(*a) + q2 + expr_text(*c) + q2 + expr_text(*st),
                q3,
            );
            lemma_ascii_cat(
                q0 + name_bytes(x) + q1 + expr_text(*a) + q2 + expr_text(*c) + q2 + expr_text(*st) + q3,
                expr_text(*b),
            );
        },
        Node::Sequence(a, b) => {
            lemma_ascii_expr(*a);
            lemma_ascii_expr(*b);
            lemma_ascii_cat(expr_text(*a), seq![32u8, 58, 32]);
            lemma_ascii_cat(expr_text(*a) + seq![32u8, 58, 32], expr_text(*b));
        },
        _ => {},
    }
    lemma_ascii_cat(seq![40u8], core_text(e));
    lemma_ascii_cat(seq![40u8] + core_text(e), seq![41u8]);
}

proof fn lemma_ascii_args(args: Seq<Node>, k: int)
    requires
        printable_args(args, k),
    ensures
        ascii(args_text(args, k)),
    decreases args, args.len() - k,
{
    if 0 <= k < args.len() {
        lemma_ascii_expr(args[k]);
        if k + 1 < args.len() {
            lemma_ascii_args(args, k + 1);
            lemma_ascii_cat(expr_text(args[k]), seq![44u8, 32]);
            lemma_ascii_cat(expr_text(args[k]) + seq![44u8, 32], args_text(args, k + 1));
        }
    }
}

proof fn lemma_ascii_names(xs: Seq<Seq<char>>, k: int)
    requires
        all_names(xs),
    ensures
        ascii(names_text(xs, k)),
    decreases xs.len() - k,
{
    if 0 <= k < xs.len() {
        lemma_ascii_name(xs[k]);
        if k + 1 < xs.len() {
            lemma_ascii_names(xs, k + 1);
            lemma_ascii_cat(name_bytes(xs[k]), seq![32u8]);
            lemma_ascii_cat(name_bytes(xs[k]) + seq![32u8], names_text(xs, k + 1));
        }
    }
}

proof fn lemma_ascii_program(ds: Seq<Node>, k: int)
    requires
        forall|m: int| 0 <= m < ds.len() ==> printable_declaration(#[trigger] ds[m]),
    ensures
        ascii(program_text(ds, k)),
    decreases ds.len() - k,
{
    if 0 <= k < ds.len() {
        let d = ds[k];
        assert(printable_declaration(d));
        match d {
            Node::Function(f, ps, b) => {
                lemma_ascii_name(f);
                lemma_ascii_names(ps, 0);
                lemma_ascii_expr(*b);
                let h = seq![100u8, 101, 102, 32];
                lemma_ascii_cat(h, name_bytes(f));
                lemma_ascii_cat(h + name_bytes(f), seq![40u8]);
                lemma_ascii_cat(h + name_bytes(f) + seq![40u8], names_text(ps, 0));
                lemma_ascii_cat(h + name_bytes(f) + seq![40u8] + names_text(ps, 0), seq![41u8, 32]);
                lemma_ascii_cat(h + name_bytes(f) + seq![40u8] + names_text(ps, 0) + seq![41u8, 32], expr_text(*b));
            },
            Node::Extern(f, ps) => {
                lemma_ascii_name(f);
                lemma_ascii_names(ps, 0);
                let h = seq![101u8, 120, 116, 101, 114, 110, 32];
                lemma_ascii_cat(h, name_bytes(f));
                lemma_ascii_cat(h + name_bytes(f), seq![40u8]);
                lemma_ascii_cat(h + name_bytes(f) + seq![40u8], names_text(ps, 0));
                lemma_ascii_cat(h + name_bytes(f) + seq![40u8] + names_text(ps, 0), seq![41u8]);
            },
            _ => {
                lemma_ascii_expr(d);
            },
        }
        if k + 1 < ds.len() {
            lemma_ascii_program(ds, k + 1);
            lemma_ascii_cat(declaration_text(d), seq![59u8, 32]);
            lemma_ascii_cat(declaration_text(d) + seq![59u8, 32], program_text(ds, k + 1));
        }
    }
}

/// The bytes of a text whose characters are `chars_of(b)`, for ASCII `b`, are `b`.
proof fn lemma_ascii_encoding(b: Seq<u8>)
    requires
        ascii(b),
    ensures
        encode_utf8(chars_of(b)) == b,
{
    let c = chars_of(b);
    assert(is_ascii_chars(c));
    is_ascii_chars_encode_utf8(c);
    assert forall|i: int| 0 <= i < b.len() implies encode_utf8(c)[i] == b[i] by {
        assert(c[i] as u8 == encode_utf8(c)[i]);
    }
    assert(encode_utf8(c) =~= b);
}

/// The canonical text that `print_program` gives parses back to the program:
/// for a text whose characters are those of the canonical text, `program`
/// of its bytes gives the entries.
pub proof fn lemma_print_then_parse(ds: Seq<Node>, text: Seq<char>)
    requires
        ds.len() > 0,
        forall|m: int| 0 <= m < ds.len() ==> printable_declaration(#[trigger] ds[m]),
        text == chars_of(program_text(ds, 0)),
    ensures
        program(encode_utf8(text)) == Ok::<Seq<Node>, crate::parser::ParseError>(ds),
        crate::parser::parse_outcome(encode_utf8(text)) == Ok::<Seq<Node>, crate::parser::ParseError>(ds),
{
    lemma_ascii_program(ds, 0);
    lemma_ascii_encoding(program_text(ds, 0));
    lemma_round_trip(ds);
}

} // verus!
