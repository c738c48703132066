//! The grammar of the language, as spec functions over the source bytes, and
//! a recursive-descent parser proved to compute exactly what they define.
//!
//! Each spec function maps a start position to the parsed tree and the
//! position after it, or to `None` where its rule does not match there. An
//! alternative is tried only when the ones before it do not match, and a
//! repetition stops at the first item that does not match, keeping what came
//! before it. Every rule consumes input before it recurses on a later position,
//! and the rules check this so that their termination is evident.
use vstd::prelude::*;
use crate::ast::{Expr, Node, Op, Program, nodes, names_view};
use crate::lexer::{ident, ident_exec, keyword, keyword_exec, lemma_skip_space_bounds, skip_space, skip_space_exec, skip_trivia, skip_trivia_exec, symbol, symbol_exec};
use crate::literal::{number_literal, number_literal_exec};
use crate::lexer::skip_digits;
use vstd::string::StringSliceAdditionalSpecFns;

verus! {

broadcast use vstd::array::group_array_axioms;

/// The binary operator at `i` of precedence level `l` (1 binds loosest, 4
/// tightest), with whitespace around it.
pub open spec fn op_at(s: Seq<u8>, i: int, l: nat) -> Option<(Op, int)> {
    let j = skip_space(s, i);
    if 0 <= j < s.len() {
        let c = s[j];
        let op = if l == 1 && c == 124 {
            Some(Op::BitwiseOr)
        } else if l == 1 && c == 38 {
            Some(Op::BitwiseAnd)
        } else if l == 2 && c == 60 {
            Some(Op::LessThan)
        } else if l == 2 && c == 62 {
            Some(Op::GreaterThan)
        } else if l == 3 && c == 43 {
            Some(Op::Plus)
        } else if l == 3 && c == 45 {
            Some(Op::Minus)
        } else if l >= 4 && c == 42 {
            Some(Op::Multiply)
        } else if l >= 4 && c == 47 {
            Some(Op::Divide)
        } else {
            None
        };
        match op {
            Some(o) => Some((o, skip_space(s, j + 1))),
            None => None,
        }
    } else {
        None
    }
}

/// Termination rank of the operator level `l`; a fold at that level has one less.
pub open spec fn level_rank(l: nat) -> nat {
    if l >= 4 {
        13
    } else {
        13 + 2 * (4 - l) as nat
    }
}

/// `p` lies after `i` and within the text.
pub open spec fn advances(s: Seq<u8>, i: int, p: int) -> bool {
    i < p <= s.len()
}

pub open spec fn kw_if() -> Seq<u8> {
    seq![105u8, 102, 32]
}

pub open spec fn kw_then() -> Seq<u8> {
    seq![116u8, 104, 101, 110]
}

pub open spec fn kw_else() -> Seq<u8> {
    seq![101u8, 108, 115, 101]
}

pub open spec fn kw_for() -> Seq<u8> {
    seq![102u8, 111, 114, 32]
}

pub open spec fn kw_in() -> Seq<u8> {
    seq![105u8, 110]
}

pub open spec fn kw_def() -> Seq<u8> {
    seq![100u8, 101, 102, 32]
}

pub open spec fn kw_extern() -> Seq<u8> {
    seq![101u8, 120, 116, 101, 114, 110, 32]
}

/// An inner expression: a conditional, a loop or an operator expression,
/// optionally followed by `:` and a second inner expression (a sequence).
pub open spec fn inner(s: Seq<u8>, i: int) -> Option<(Node, int)>
    decreases s.len() - i, 21nat,
{
    let first = match if_expr(s, i) {
        Some(r) => Some(r),
        None => match for_expr(s, i) {
            Some(r) => Some(r),
            None => binary(s, i, 1),
        },
    };
    match first {
        None => None,
        Some((a, j)) => match symbol(s, j, 58) {
            Some(k) => if advances(s, i, k) {
                match inner(s, k) {
                    Some((b, m)) => Some((Node::Sequence(Box::new(a), Box::new(b)), m)),
                    None => Some((a, j)),
                }
            } else {
                Some((a, j))
            },
            None => Some((a, j)),
        },
    }
}

/// `if <binary> then <binary> else <inner>`.
pub open spec fn if_expr(s: Seq<u8>, i: int) -> Option<(Node, int)>
    decreases s.len() - i, 20nat,
{
    match keyword(s, i, kw_if()) {
        Some(j) if advances(s, i, j) => match binary(s, j, 1) {
            Some((c, k)) => match keyword(s, k, kw_then()) {
                Some(l) if advances(s, i, l) => match binary(s, l, 1) {
                    Some((t, m)) => match keyword(s, m, kw_else()) {
                        Some(n) if advances(s, i, n) => match inner(s, n) {
                            Some((e, o)) => Some(
                                (Node::IfExpr(Box::new(c), Box::new(t), Box::new(e)), o),
                            ),
                            None => None,
                        },
                        _ => None,
                    },
                    None => None,
                },
                _ => None,
            },
            None => None,
        },
        _ => None,
    }
}

/// `for <ident> = <inner> , <inner> , <inner> in <inner>`.
pub open spec fn for_expr(s: Seq<u8>, i: int) -> Option<(Node, int)>
    decreases s.len() - i, 20nat,
{
    match keyword(s, i, kw_for()) {
        Some(j) => match ident(s, j) {
            Some((x, k)) => match symbol(s, k, 61) {
                Some(l) if advances(s, i, l) => match inner(s, l) {
                    Some((a, m)) => match symbol(s, m, 44) {
                        Some(n) if advances(s, i, n) => match inner(s, n) {
                            Some((c, o)) => match symbol(s, o, 44) {
                                Some(p) if advances(s, i, p) => match inner(s, p) {
                                    Some((st, q)) => match keyword(s, q, kw_in()) {
                                        Some(r) if advances(s, i, r) => match inner(s, r) {
                                            Some((b, t)) => Some(
                                                (
                                                    Node::ForInExpr(
                                                        x,
                                                        Box::new(a),
                                                        Box::new(c),
                                                        Box::new(st),
                                                        Box::new(b),
                                                    ),
                                                    t,
                                                ),
                                            ),
                                            None => None,
                                        },
                                        _ => None,
                                    },
                                    None => None,
                                },
                                _ => None,
                            },
                            None => None,
                        },
                        _ => None,
                    },
                    None => None,
                },
                _ => None,
            },
            None => None,
        },
        None => None,
    }
}

/// An operator expression of level `l` and tighter: operands of the next
/// level (terms at level 4) joined by operators of level `l`, grouped to the left.
pub open spec fn binary(s: Seq<u8>, i: int, l: nat) -> Option<(Node, int)>
    decreases s.len() - i, level_rank(l),
{
    let first = if l >= 4 {
        term(s, i)
    } else {
        binary(s, i, l + 1)
    };
    match first {
        Some((a, j)) => if i <= j <= s.len() {
            Some(fold(s, j, l, a))
        } else {
            None
        },
        None => None,
    }
}

/// The operators and operands of level `l` that follow `acc` at `i`, folded
/// to the left onto `acc`.
pub open spec fn fold(s: Seq<u8>, i: int, l: nat, acc: Node) -> (Node, int)
    decreases s.len() - i, (level_rank(l) - 1) as nat,
{
    match op_at(s, i, l) {
        Some((op, j)) => if advances(s, i, j) {
            let operand = if l >= 4 {
                term(s, j)
            } else {
                binary(s, j, l + 1)
            };
            match operand {
                Some((b, k)) => if advances(s, i, k) {
                    fold(s, k, l, Node::BinOp(op, Box::new(acc), Box::new(b)))
                } else {
                    (acc, i)
                },
                None => (acc, i),
            }
        } else {
            (acc, i)
        },
        None => (acc, i),
    }
}

/// A term: a call, a number literal, a variable, or a parenthesised inner expression.
pub open spec fn term(s: Seq<u8>, i: int) -> Option<(Node, int)>
    decreases s.len() - i, 11nat,
{
    match call(s, i) {
        Some(r) => Some(r),
        None => match number_literal(s, i) {
            Some((n, j)) => Some((Node::Float(n), j)),
            None => match ident(s, i) {
                Some((x, j)) => Some((Node::Var(x), j)),
                None => parens(s, i),
            },
        },
    }
}

/// `<ident> ( <inner> , ... )`.
pub open spec fn call(s: Seq<u8>, i: int) -> Option<(Node, int)>
    decreases s.len() - i, 10nat,
{
    match ident(s, i) {
        Some((f, j)) => match symbol(s, j, 40) {
            Some(k) if advances(s, i, k) => {
                let (args, m) = arguments(s, k);
                match symbol(s, m, 41) {
                    Some(e) => Some((Node::Call(f, args), e)),
                    None => None,
                }
            },
            _ => None,
        },
        None => None,
    }
}

/// `( <inner> )`.
pub open spec fn parens(s: Seq<u8>, i: int) -> Option<(Node, int)>
    decreases s.len() - i, 10nat,
{
    match symbol(s, i, 40) {
        Some(j) if advances(s, i, j) => match inner(s, j) {
            Some((e, k)) => match symbol(s, k, 41) {
                Some(m) => Some((e, m)),
                None => None,
            },
            None => None,
        },
        _ => None,
    }
}

/// A possibly empty list of inner expressions separated by commas.
pub open spec fn arguments(s: Seq<u8>, i: int) -> (Seq<Node>, int)
    decreases s.len() - i, 22nat,
{
    match inner(s, i) {
        Some((a, j)) => if advances(s, i, j) {
            more_arguments(s, j, seq![a])
        } else {
            (seq![], i)
        },
        None => (seq![], i),
    }
}

/// The arguments after the first ones, `acc`, that end at `i`.
pub open spec fn more_arguments(s: Seq<u8>, i: int, acc: Seq<Node>) -> (Seq<Node>, int)
    decreases s.len() - i, 22nat,
{
    match symbol(s, i, 44) {
        Some(j) if advances(s, i, j) => match inner(s, j) {
            Some((a, k)) => if advances(s, i, k) {
                more_arguments(s, k, acc.push(a))
            } else {
                (acc, i)
            },
            None => (acc, i),
        },
        _ => (acc, i),
    }
}

/// `extern <ident> ( <ident> <ident> ... )`, the parameters separated by single spaces.
pub open spec fn extern_decl(s: Seq<u8>, i: int) -> Option<(Node, int)> {
    match keyword(s, i, kw_extern()) {
        Some(j) => match ident(s, j) {
            Some((f, k)) => match symbol(s, k, 40) {
                Some(l) => {
                    let (ps, m) = extern_params(s, l);
                    match symbol(s, m, 41) {
                        Some(n) => Some((Node::Extern(f, ps), n)),
                        None => None,
                    }
                },
                None => None,
            },
            None => None,
        },
        None => None,
    }
}

pub open spec fn extern_params(s: Seq<u8>, i: int) -> (Seq<Seq<char>>, int) {
    match ident(s, i) {
        Some((x, j)) => extern_more(s, j, seq![x]),
        None => (seq![], i),
    }
}

pub open spec fn extern_more(s: Seq<u8>, i: int, acc: Seq<Seq<char>>) -> (Seq<Seq<char>>, int)
    decreases s.len() - i,
{
    if 0 <= i < s.len() && s[i] == 32 {
        match ident(s, i + 1) {
            Some((x, j)) => if advances(s, i, j) {
                extern_more(s, j, acc.push(x))
            } else {
                (acc, i)
            },
            None => (acc, i),
        }
    } else {
        (acc, i)
    }
}

/// `def <ident> ( <ident> <ident> ... ) <inner>`, the parameters separated by whitespace.
pub open spec fn def_decl(s: Seq<u8>, i: int) -> Option<(Node, int)> {
    match keyword(s, i, kw_def()) {
        Some(j) => match ident(s, j) {
            Some((f, k)) => match symbol(s, k, 40) {
                Some(l) => {
                    let (ps, m) = def_params(s, l);
                    match symbol(s, m, 41) {
                        Some(n) => match inner(s, n) {
                            Some((b, o)) => Some((Node::Function(f, ps, Box::new(b)), o)),
                            None => None,
                        },
                        None => None,
                    }
                },
                None => None,
            },
            None => None,
        },
        None => None,
    }
}

pub open spec fn def_params(s: Seq<u8>, i: int) -> (Seq<Seq<char>>, int) {
    match ident(s, i) {
        Some((x, j)) => def_more(s, j, seq![x]),
        None => (seq![], i),
    }
}

pub open spec fn def_more(s: Seq<u8>, i: int, acc: Seq<Seq<char>>) -> (Seq<Seq<char>>, int)
    decreases s.len() - i,
{
    let q = skip_space(s, i);
    if q > i {
        match ident(s, q) {
            Some((x, j)) => if advances(s, i, j) {
                def_more(s, j, acc.push(x))
            } else {
                (acc, i)
            },
            None => (acc, i),
        }
    } else {
        (acc, i)
    }
}

/// A top-level entry: an extern declaration, a function definition, or an
/// inner expression.
pub open spec fn declaration(s: Seq<u8>, i: int) -> Option<(Node, int)> {
    match extern_decl(s, i) {
        Some(r) => Some(r),
        None => match def_decl(s, i) {
            Some(r) => Some(r),
            None => inner(s, i),
        },
    }
}

/// The entries after the first ones, `acc`, that end at `i`: each follows a
/// `;`, with whitespace and comments allowed around it.
pub open spec fn more_declarations(s: Seq<u8>, i: int, acc: Seq<Node>) -> (Seq<Node>, int)
    decreases s.len() - i,
{
    let t = skip_trivia(s, i);
    if 0 <= t < s.len() && s[t] == 59 {
        match declaration(s, skip_trivia(s, t + 1)) {
            Some((d, j)) => if advances(s, i, j) {
                more_declarations(s, j, acc.push(d))
            } else {
                (acc, i)
            },
            None => (acc, i),
        }
    } else {
        (acc, i)
    }
}

/// Where the text after the last entry stops being whitespace, comments or `;`.
pub open spec fn tail_end(s: Seq<u8>, i: int) -> int
    decreases s.len() - i,
{
    let t = skip_trivia(s, i);
    if i <= t < s.len() && s[t] == 59 {
        tail_end(s, t + 1)
    } else {
        t
    }
}

/// Why a text is not a program.
#[derive(Clone, Copy, Debug, PartialEq, Eq)]
pub enum ParseErrorKind {
    /// No declaration or expression starts at the position.
    ExpectedDeclaration,
    /// The text from the position on is not part of any entry.
    TrailingInput,
    /// A `)` was expected at the position: a `(` before it is never closed.
    ExpectedClosingParenthesis,
    /// The `)` at the position closes no `(`.
    UnmatchedClosingParenthesis,
}

/// A parse failure: the byte offset of the first unparsed input, and what was wrong there.
#[derive(Clone, Copy, Debug, PartialEq, Eq)]
pub struct ParseError {
    pub position: usize,
    pub kind: ParseErrorKind,
}

/// The program that a text holds: one or more entries separated by `;`,
/// optionally followed by `;`, with whitespace and comments around them, and
/// nothing else.
pub open spec fn program(s: Seq<u8>) -> Result<Seq<Node>, ParseError> {
    let i = skip_trivia(s, 0);
    match declaration(s, i) {
        None => Err(ParseError { position: i as usize, kind: ParseErrorKind::ExpectedDeclaration }),
        Some((d, j)) => {
            let (ds, k) = more_declarations(s, j, seq![d]);
            if tail_end(s, k) == s.len() {
                Ok(ds)
            } else {
                Err(ParseError { position: k as usize, kind: ParseErrorKind::TrailingInput })
            }
        },
    }
}

/// The expression at the start of a text, and the position after it.
pub open spec fn leading_expression(s: Seq<u8>) -> Result<(Node, int), ParseError> {
    match inner(s, 0) {
        Some(r) => Ok(r),
        None => Err(ParseError { position: 0, kind: ParseErrorKind::ExpectedDeclaration }),
    }
}

/// A parenthesised inner expression is one term whose tree is the inner
/// expression's own: the parentheses add no node, so they override precedence.
pub proof fn lemma_parens_group(s: Seq<u8>, i: int, e: Node, k: int)
    requires
        0 <= i < s.len(),
        s[i] == 40,
        inner(s, skip_space(s, i + 1)) == Some((e, k)),
        0 <= k < s.len(),
        s[k] == 41,
    ensures
        term(s, i) == Some((e, skip_space(s, k + 1))),
{
    lemma_skip_space_bounds(s, i + 1);
    assert(skip_space(s, i) == i);
    assert(skip_space(s, k) == k);
    assert(parens(s, i) == Some((e, skip_space(s, k + 1))));
    assert(ident(s, i) is None);
    assert(call(s, i) is None);
    assert(skip_digits(s, i) == i);
    assert(crate::literal::mantissa_shape(s, i) is None);
    assert(number_literal(s, i) is None);
}

/// A name followed by a parenthesised argument list is a call term whose
/// arguments are the list's expressions, all of them, in order.
pub proof fn lemma_call_term(s: Seq<u8>, i: int, f: Seq<char>, j: int, args: Seq<Node>, m: int)
    requires
        ident(s, i) == Some((f, j)),
        i < j < s.len(),
        s[j] == 40,
        arguments(s, skip_space(s, j + 1)) == (args, m),
        0 <= m < s.len(),
        s[m] == 41,
    ensures
        term(s, i) == Some((Node::Call(f, args), skip_space(s, m + 1))),
{
    lemma_skip_space_bounds(s, j + 1);
    assert(skip_space(s, j) == j);
    assert(skip_space(s, m) == m);
    assert(call(s, i) == Some((Node::Call(f, args), skip_space(s, m + 1))));
}

/// `r` is the executable result of a rule whose spec result is `t`.
pub open spec fn agrees(r: Option<(Expr, usize)>, t: Option<(Node, int)>, n: int) -> bool {
    match r {
        None => t is None,
        Some((e, j)) => t == Some((e.node(), j as int)) && j <= n,
    }
}

fn op_at_exec(s: &[u8], i: usize, l: u8) -> (r: Option<(Op, usize)>)
    requires
        i <= s@.len(),
    ensures
        op_at(s@, i as int, l as nat) is None <==> r is None,
        r matches Some((o, j)) ==> op_at(s@, i as int, l as nat) == Some((o, j as int)) && j
            <= s@.len(),
{
    let j = skip_space_exec(s, i);
    if j < s.len() {
        let c = s[j];
        let op = if l == 1 && c == 124 {
            Some(Op::BitwiseOr)
        } else if l == 1 && c == 38 {
            Some(Op::BitwiseAnd)
        } else if l == 2 && c == 60 {
            Some(Op::LessThan)
        } else if l == 2 && c == 62 {
            Some(Op::GreaterThan)
        } else if l == 3 && c == 43 {
            Some(Op::Plus)
        } else if l == 3 && c == 45 {
            Some(Op::Minus)
        } else if l >= 4 && c == 42 {
            Some(Op::Multiply)
        } else if l >= 4 && c == 47 {
            Some(Op::Divide)
        } else {
            None
        };
        match op {
            Some(o) => Some((o, skip_space_exec(s, j + 1))),
            None => None,
        }
    } else {
        None
    }
}

fn inner_exec(s: &[u8], i: usize) -> (r: Option<(Expr, usize)>)
    requires
        i <= s@.len(),
    ensures
        agrees(r, inner(s@, i as int), s@.len() as int),
    decreases s@.len() - i, 21nat,
{
    let first = match if_exec(s, i) {
        Some(r) => Some(r),
        None => match for_exec(s, i) {
            Some(r) => Some(r),
            None => binary_exec(s, i, 1),
        },
    };
    match first {
        None => None,
        Some((a, j)) => match symbol_exec(s, j, 58) {
            Some(k) => if i < k && k <= s.len() {
                match inner_exec(s, k) {
                    Some((b, m)) => Some((Expr::Sequence(Box::new(a), Box::new(b)), m)),
                    None => Some((a, j)),
                }
            } else {
                Some((a, j))
            },
            None => Some((a, j)),
        },
    }
}

fn if_exec(s: &[u8], i: usize) -> (r: Option<(Expr, usize)>)
    requires
        i <= s@.len(),
    ensures
        agrees(r, if_expr(s@, i as int), s@.len() as int),
    decreases s@.len() - i, 20nat,
{
    let w_if: [u8; 3] = [105, 102, 32];
    let w_then: [u8; 4] = [116, 104, 101, 110];
    let w_else: [u8; 4] = [101, 108, 115, 101];
    proof {
        assert(w_if@ =~= kw_if());
        assert(w_then@ =~= kw_then());
        assert(w_else@ =~= kw_else());
    }
    let ws = w_if.as_slice();
    assert(ws@ == kw_if());
    let j = match keyword_exec(s, i, ws) {
        Some(j) => j,
        None => {
            return None;
        },
    };
    let (c, k) = match binary_exec(s, j, 1) {
        Some(t) => t,
        None => {
            return None;
        },
    };
    let l = match keyword_exec(s, k, w_then.as_slice()) {
        Some(l) if i < l => l,
        _ => {
            return None;
        },
    };
    let (t, m) = match binary_exec(s, l, 1) {
        Some(t) => t,
        None => {
            return None;
        },
    };
    let n = match keyword_exec(s, m, w_else.as_slice()) {
        Some(n) if i < n => n,
        _ => {
            return None;
        },
    };
    match inner_exec(s, n) {
        Some((e, o)) => Some((Expr::IfExpr(Box::new(c), Box::new(t), Box::new(e)), o)),
        None => None,
    }
}

fn for_exec(s: &[u8], i: usize) -> (r: Option<(Expr, usize)>)
    requires
        i <= s@.len(),
    ensures
        agrees(r, for_expr(s@, i as int), s@.len() as int),
    decreases s@.len() - i, 20nat,
{
    let w_for: [u8; 4] = [102, 111, 114, 32];
    let w_in: [u8; 2] = [105, 110];
    proof {
        assert(w_for@ =~= kw_for());
        assert(w_in@ =~= kw_in());
    }
    let j = match keyword_exec(s, i, w_for.as_slice()) {
        Some(j) => j,
        None => {
            return None;
        },
    };
    let (x, k) = match ident_exec(s, j) {
        Some(t) => t,
        None => {
            return None;
        },
    };
    let l = match symbol_exec(s, k, 61) {
        Some(l) if i < l => l,
        _ => {
            return None;
        },
    };
    let (a, m) = match inner_exec(s, l) {
        Some(t) => t,
        None => {
            return None;
        },
    };
    let n = match symbol_exec(s, m, 44) {
        Some(n) if i < n => n,
        _ => {
            return None;
        },
    };
    let (c, o) = match inner_exec(s, n) {
        Some(t) => t,
        None => {
            return None;
        },
    };
    let p = match symbol_exec(s, o, 44) {
        Some(p) if i < p => p,
        _ => {
            return None;
        },
    };
    let (st, q) = match inner_exec(s, p) {
        Some(t) => t,
        None => {
            return None;
        },
    };
    let r = match keyword_exec(s, q, w_in.as_slice()) {
        Some(r) if i < r => r,
        _ => {
            return None;
        },
    };
    match inner_exec(s, r) {
        Some((b, t)) => Some(
            (Expr::ForInExpr(x, Box::new(a), Box::new(c), Box::new(st), Box::new(b)), t),
        ),
        None => None,
    }
}

fn binary_exec(s: &[u8], i: usize, l: u8) -> (r: Option<(Expr, usize)>)
    requires
        i <= s@.len(),
        1 <= l <= 4,
    ensures
        agrees(r, binary(s@, i as int, l as nat), s@.len() as int),
    decreases s@.len() - i, level_rank(l as nat),
{
    let first = if l >= 4 {
        term_exec(s, i)
    } else {
        binary_exec(s, i, l + 1)
    };
    let (a, j) = match first {
        Some(t) => t,
        None => {
            return None;
        },
    };
    if !(i <= j && j <= s.len()) {
        return None;
    }
    let ghost a0 = a.node();
    let mut acc = a;
    let mut p = j;
    loop
        invariant
            i <= j <= p <= s@.len(),
            1 <= l <= 4,
            fold(s@, p as int, l as nat, acc.node()) == fold(s@, j as int, l as nat, a0),
        ensures
            fold(s@, j as int, l as nat, a0) == (acc.node(), p as int),
            p <= s@.len(),
        decreases s@.len() - p,
    {
        let (op, q) = match op_at_exec(s, p, l) {
            Some(t) => t,
            None => {
                break ;
            },
        };
        if !(p < q && q <= s.len()) {
            break ;
        }
        let operand = if l >= 4 {
            term_exec(s, q)
        } else {
            binary_exec(s, q, l + 1)
        };
        let (b, k) = match operand {
            Some(t) => t,
            None => {
                break ;
            },
        };
        if !(p < k && k <= s.len()) {
            break ;
        }
        acc = Expr::BinOp(op, Box::new(acc), Box::new(b));
        p = k;
    }
    Some((acc, p))
}

fn term_exec(s: &[u8], i: usize) -> (r: Option<(Expr, usize)>)
    requires
        i <= s@.len(),
    ensures
        agrees(r, term(s@, i as int), s@.len() as int),
    decreases s@.len() - i, 11nat,
{
    match call_exec(s, i) {
        Some(r) => Some(r),
        None => match number_literal_exec(s, i) {
            Some((n, j)) => Some((Expr::Float(n), j)),
            None => match ident_exec(s, i) {
                Some((x, j)) => Some((Expr::Var(x), j)),
                None => parens_exec(s, i),
            },
        },
    }
}

fn call_exec(s: &[u8], i: usize) -> (r: Option<(Expr, usize)>)
    requires
        i <= s@.len(),
    ensures
        agrees(r, call(s@, i as int), s@.len() as int),
    decreases s@.len() - i, 10nat,
{
    let (f, j) = match ident_exec(s, i) {
        Some(t) => t,
        None => {
            return None;
        },
    };
    let k = match symbol_exec(s, j, 40) {
        Some(k) if i < k => k,
        _ => {
            return None;
        },
    };
    let (args, m) = arguments_exec(s, k);
    match symbol_exec(s, m, 41) {
        Some(e) => {
            proof {
                crate::ast::lemma_call_node(f, args);
            }
            Some((Expr::Call(f, args), e))
        },
        None => None,
    }
}

fn parens_exec(s: &[u8], i: usize) -> (r: Option<(Expr, usize)>)
    requires
        i <= s@.len(),
    ensures
        agrees(r, parens(s@, i as int), s@.len() as int),
    decreases s@.len() - i, 10nat,
{
    let j = match symbol_exec(s, i, 40) {
        Some(j) => j,
        None => {
            return None;
        },
    };
    let (e, k) = match inner_exec(s, j) {
        Some(t) => t,
        None => {
            return None;
        },
    };
    match symbol_exec(s, k, 41) {
        Some(m) => Some((e, m)),
        None => None,
    }
}

fn arguments_exec(s: &[u8], i: usize) -> (r: (Vec<Expr>, usize))
    requires
        i <= s@.len(),
    ensures
        arguments(s@, i as int) == (nodes(r.0@), r.1 as int),
        r.1 <= s@.len(),
    decreases s@.len() - i, 22nat,
{
    let (a, j) = match inner_exec(s, i) {
        Some(t) => t,
        None => {
            proof {
                assert(nodes(Seq::<Expr>::empty()) =~= seq![]);
            }
            return (Vec::new(), i);
        },
    };
    if !(i < j && j <= s.len()) {
        proof {
            assert(nodes(Seq::<Expr>::empty()) =~= seq![]);
        }
        return (Vec::new(), i);
    }
    let mut v: Vec<Expr> = Vec::new();
    v.push(a);
    proof {
        assert(nodes(v@) =~= seq![a.node()]);
    }
    let mut p = j;
    loop
        invariant
            i < p <= s@.len(),
            more_arguments(s@, p as int, nodes(v@)) == arguments(s@, i as int),
        ensures
            arguments(s@, i as int) == (nodes(v@), p as int),
            p <= s@.len(),
        decreases s@.len() - p,
    {
        let q = match symbol_exec(s, p, 44) {
            Some(q) => q,
            None => {
                break ;
            },
        };
        let (b, k) = match inner_exec(s, q) {
            Some(t) => t,
            None => {
                break ;
            },
        };
        if !(p < k && k <= s.len()) {
            break ;
        }
        proof {
            assert(nodes(v@.push(b)) =~= nodes(v@).push(b.node()));
        }
        v.push(b);
        p = k;
    }
    (v, p)
}

fn extern_params_exec(s: &[u8], i: usize) -> (r: (Vec<String>, usize))
    requires
        i <= s@.len(),
    ensures
        extern_params(s@, i as int) == (names_view(r.0), r.1 as int),
        r.1 <= s@.len(),
{
    let (x, j) = match ident_exec(s, i) {
        Some(t) => t,
        None => {
            let v: Vec<String> = Vec::new();
            proof {
                assert(names_view(v) =~= seq![]);
            }
            return (v, i);
        },
    };
    let mut v: Vec<String> = Vec::new();
    v.push(x);
    proof {
        assert(names_view(v) =~= seq![x@]);
    }
    let mut p = j;
    loop
        invariant
            p <= s@.len(),
            extern_more(s@, p as int, names_view(v)) == extern_params(s@, i as int),
        ensures
            extern_params(s@, i as int) == (names_view(v), p as int),
            p <= s@.len(),
        decreases s@.len() - p,
    {
        if !(p < s.len() && s[p] == 32) {
            break ;
        }
        let (y, q) = match ident_exec(s, p + 1) {
            Some(t) => t,
            None => {
                break ;
            },
        };
        proof {
            assert(names_view(v).push(y@) =~= v@.push(y).map_values(|n: String| n@));
        }
        v.push(y);
        p = q;
    }
    (v, p)
}

fn extern_exec(s: &[u8], i: usize) -> (r: Option<(Expr, usize)>)
    requires
        i <= s@.len(),
    ensures
        agrees(r, extern_decl(s@, i as int), s@.len() as int),
{
    let w: [u8; 7] = [101, 120, 116, 101, 114, 110, 32];
    proof {
        assert(w@ =~= kw_extern());
    }
    let j = match keyword_exec(s, i, w.as_slice()) {
        Some(j) => j,
        None => {
            return None;
        },
    };
    let (f, k) = match ident_exec(s, j) {
        Some(t) => t,
        None => {
            return None;
        },
    };
    let l = match symbol_exec(s, k, 40) {
        Some(l) => l,
        None => {
            return None;
        },
    };
    let (ps, m) = extern_params_exec(s, l);
    match symbol_exec(s, m, 41) {
        Some(n) => Some((Expr::Extern(f, ps), n)),
        None => None,
    }
}

fn def_params_exec(s: &[u8], i: usize) -> (r: (Vec<String>, usize))
    requires
        i <= s@.len(),
    ensures
        def_params(s@, i as int) == (names_view(r.0), r.1 as int),
        r.1 <= s@.len(),
{
    let (x, j) = match ident_exec(s, i) {
        Some(t) => t,
        None => {
            let v: Vec<String> = Vec::new();
            proof {
                assert(names_view(v) =~= seq![]);
            }
            return (v, i);
        },
    };
    let mut v: Vec<String> = Vec::new();
    v.push(x);
    proof {
        assert(names_view(v) =~= seq![x@]);
    }
    let mut p = j;
    loop
        invariant
            p <= s@.len(),
            def_more(s@, p as int, names_view(v)) == def_params(s@, i as int),
        ensures
            def_params(s@, i as int) == (names_view(v), p as int),
            p <= s@.len(),
        decreases s@.len() - p,
    {
        let q = skip_space_exec(s, p);
        if q == p {
            break ;
        }
        let (y, r) = match ident_exec(s, q) {
            Some(t) => t,
            None => {
                break ;
            },
        };
        proof {
            assert(names_view(v).push(y@) =~= v@.push(y).map_values(|n: String| n@));
        }
        v.push(y);
        p = r;
    }
    (v, p)
}

fn def_exec(s: &[u8], i: usize) -> (r: Option<(Expr, usize)>)
    requires
        i <= s@.len(),
    ensures
        agrees(r, def_decl(s@, i as int), s@.len() as int),
{
    let w: [u8; 4] = [100, 101, 102, 32];
    proof {
        assert(w@ =~= kw_def());
    }
    let j = match keyword_exec(s, i, w.as_slice()) {
        Some(j) => j,
        None => {
            return None;
        },
    };
    let (f, k) = match ident_exec(s, j) {
        Some(t) => t,
        None => {
            return None;
        },
    };
    let l = match symbol_exec(s, k, 40) {
        Some(l) => l,
        None => {
            return None;
        },
    };
    let (ps, m) = def_params_exec(s, l);
    let n = match symbol_exec(s, m, 41) {
        Some(n) => n,
        None => {
            return None;
        },
    };
    match inner_exec(s, n) {
        Some((b, o)) => Some((Expr::Function(f, ps, Box::new(b)), o)),
        None => None,
    }
}

fn declaration_exec(s: &[u8], i: usize) -> (r: Option<(Expr, usize)>)
    requires
        i <= s@.len(),
    ensures
        agrees(r, declaration(s@, i as int), s@.len() as int),
{
    match extern_exec(s, i) {
        Some(r) => Some(r),
        None => match def_exec(s, i) {
            Some(r) => Some(r),
            None => inner_exec(s, i),
        },
    }
}

fn tail_end_exec(s: &[u8], i: usize) -> (r: usize)
    requires
        i <= s@.len(),
    ensures
        r == tail_end(s@, i as int),
{
    let mut k = i;
    loop
        invariant
            k <= s@.len(),
            tail_end(s@, k as int) == tail_end(s@, i as int),
        decreases s@.len() - k,
    {
        let t = skip_trivia_exec(s, k);
        if t < s.len() && s[t] == 59 {
            k = t + 1;
        } else {
            return t;
        }
    }
}

/// The first parenthesis problem of a text, scanning from `i` with `depth`
/// parentheses open, outside comments (`in_comment` says whether `i` lies in one).
pub open spec fn paren_problem(s: Seq<u8>, i: int, depth: nat, in_comment: bool) -> Option<ParseError>
    decreases s.len() - i,
{
    if i < 0 || i >= s.len() {
        if depth > 0 {
            Some(ParseError { position: s.len() as usize, kind: ParseErrorKind::ExpectedClosingParenthesis })
        } else {
            None
        }
    } else if in_comment {
        paren_problem(s, i + 1, depth, s[i] != 10)
    } else if s[i] == 35 {
        paren_problem(s, i + 1, depth, true)
    } else if s[i] == 40 {
        paren_problem(s, i + 1, depth + 1, false)
    } else if s[i] == 41 {
        if depth == 0 {
            Some(ParseError { position: i as usize, kind: ParseErrorKind::UnmatchedClosingParenthesis })
        } else {
            paren_problem(s, i + 1, (depth - 1) as nat, false)
        }
    } else {
        paren_problem(s, i + 1, depth, false)
    }
}

/// What parsing a text gives: its program, or, when it is not one, the
/// error: a parenthesis problem when there is one, as it names the first
/// unmatched character, else where the grammar stopped.
pub open spec fn parse_outcome(s: Seq<u8>) -> Result<Seq<Node>, ParseError> {
    match program(s) {
        Ok(ds) => Ok(ds),
        Err(e) => match paren_problem(s, 0, 0, false) {
            Some(p) => Err(p),
            None => Err(e),
        },
    }
}

fn paren_problem_exec(s: &[u8]) -> (r: Option<ParseError>)
    ensures
        r == paren_problem(s@, 0, 0, false),
{
    let mut i: usize = 0;
    let mut depth: usize = 0;
    let mut in_comment = false;
    while i < s.len()
        invariant
            i <= s@.len(),
            depth <= i,
            paren_problem(s@, i as int, depth as nat, in_comment) == paren_problem(s@, 0, 0, false),
        decreases s@.len() - i,
    {
        let c = s[i];
        if in_comment {
            in_comment = c != 10;
        } else if c == 35 {
            in_comment = true;
        } else if c == 40 {
            depth = depth + 1;
        } else if c == 41 {
            if depth == 0 {
                return Some(ParseError { position: i, kind: ParseErrorKind::UnmatchedClosingParenthesis });
            }
            depth = depth - 1;
        }
        i = i + 1;
    }
    if depth > 0 {
        Some(ParseError { position: s.len(), kind: ParseErrorKind::ExpectedClosingParenthesis })
    } else {
        None
    }
}

/// Parses a whole program.
pub fn parse_program(text: &str) -> (r: Result<Program, ParseError>)
    ensures
        match parse_outcome(text.spec_bytes()) {
            Ok(ds) => r matches Ok(p) && nodes(p@) == ds,
            Err(e) => r == Err::<Program, ParseError>(e),
        },
{
    match parse_entries(text) {
        Ok(p) => Ok(p),
        Err(e) => match paren_problem_exec(text.as_bytes()) {
            Some(p) => Err(p),
            None => Err(e),
        },
    }
}

/// Parses a text by the grammar alone.
fn parse_entries(text: &str) -> (r: Result<Program, ParseError>)
    ensures
        match program(text.spec_bytes()) {
            Ok(ds) => r matches Ok(p) && nodes(p@) == ds,
            Err(e) => r == Err::<Program, ParseError>(e),
        },
{
    let s = text.as_bytes();
    let i = skip_trivia_exec(s, 0);
    let (d, j) = match declaration_exec(s, i) {
        Some(t) => t,
        None => {
            return Err(ParseError { position: i, kind: ParseErrorKind::ExpectedDeclaration });
        },
    };
    let mut v: Vec<Expr> = Vec::new();
    v.push(d);
    proof {
        assert(nodes(v@) =~= seq![d.node()]);
    }
    let mut p = j;
    loop
        invariant
            p <= s@.len(),
            more_declarations(s@, p as int, nodes(v@)) == more_declarations(s@, j as int, seq![d.node()]),
        ensures
            more_declarations(s@, j as int, seq![d.node()]) == (nodes(v@), p as int),
            p <= s@.len(),
        decreases s@.len() - p,
    {
        let t = skip_trivia_exec(s, p);
        if !(t < s.len() && s[t] == 59) {
            break ;
        }
        let u = skip_trivia_exec(s, t + 1);
        let (e, q) = match declaration_exec(s, u) {
            Some(x) => x,
            None => {
                break ;
            },
        };
        if !(p < q && q <= s.len()) {
            break ;
        }
        proof {
            assert(nodes(v@.push(e)) =~= nodes(v@).push(e.node()));
        }
        v.push(e);
        p = q;
    }
    if tail_end_exec(s, p) == s.len() {
        Ok(v)
    } else {
        Err(ParseError { position: p, kind: ParseErrorKind::TrailingInput })
    }
}

/// Parses the expression at the start of a text; gives it and the number of
/// bytes it takes, including the whitespace after it.
pub fn parse_expr(text: &str) -> (r: Result<(Expr, usize), ParseError>)
    ensures
        match leading_expression(text.spec_bytes()) {
            Ok((e, j)) => r matches Ok((x, k)) && x.node() == e && k == j,
            Err(e) => r == Err::<(Expr, usize), ParseError>(e),
        },
{
    match inner_exec(text.as_bytes(), 0) {
        Some(t) => Ok(t),
        None => Err(ParseError { position: 0, kind: ParseErrorKind::ExpectedDeclaration }),
    }
}

} // verus!
