use vstd::prelude::*;

verus! {

broadcast use vstd::std_specs::vec::group_vec_axioms;

/// An identifier of the language.
pub type Name = String;

/// A decimal number literal, held exactly: its value is
/// `(-1)^negative * d * 10^exponent`, where `d` is the integer that the
/// ASCII decimal `digits` spell (zero when there are none).
///
/// A well-formed literal is normalised (see `NumberV::wf`): its digits have no
/// leading or trailing zero, and zero has no digits and exponent zero, so two
/// literals of equal value are equal as data.
#[derive(Debug, PartialEq, Eq)]
pub struct Number {
    pub negative: bool,
    pub digits: Vec<u8>,
    pub exponent: i128,
}

/// The model of a `Number`.
pub struct NumberV {
    pub negative: bool,
    pub digits: Seq<u8>,
    pub exponent: i128,
}

impl NumberV {
    pub open spec fn wf(self) -> bool {
        &&& forall|k: int| 0 <= k < self.digits.len() ==> 48 <= #[trigger] self.digits[k] <= 57
        &&& self.digits.len() == 0 ==> self.exponent == 0
        &&& self.digits.len() > 0 ==> self.digits[0] != 48 && self.digits.last() != 48
    }
}

impl View for Number {
    type V = NumberV;

    open spec fn view(&self) -> NumberV {
        NumberV { negative: self.negative, digits: self.digits@, exponent: self.exponent }
    }
}

impl Number {
    /// A copy of the literal.
    pub fn copy(&self) -> (r: Number)
        ensures
            r@ == self@,
    {
        let mut digits: Vec<u8> = Vec::new();
        let mut k: usize = 0;
        while k < self.digits.len()
            invariant
                k <= self.digits@.len(),
                digits@ == self.digits@.subrange(0, k as int),
            decreases self.digits@.len() - k,
        {
            digits.push(self.digits[k]);
            proof {
                assert(digits@ =~= self.digits@.subrange(0, k + 1));
            }
            k = k + 1;
        }
        proof {
            assert(digits@ =~= self.digits@);
        }
        Number { negative: self.negative, digits, exponent: self.exponent }
    }
}

/// A binary operator.
#[derive(Clone, Copy, Debug, PartialEq, Eq)]
pub enum Op {
    Plus,
    Minus,
    Multiply,
    Divide,
    LessThan,
    GreaterThan,
    BitwiseOr,
    BitwiseAnd,
}

/// An expression, or a top-level declaration, of the language.
#[derive(Debug, PartialEq)]
pub enum Expr {
    Float(Number),
    Var(Name),
    BinOp(Op, Box<Expr>, Box<Expr>),
    Call(Name, Program),
    Function(Name, Vec<Name>, Box<Expr>),
    IfExpr(Box<Expr>, Box<Expr>, Box<Expr>),
    ForInExpr(Name, Box<Expr>, Box<Expr>, Box<Expr>, Box<Expr>),
    Extern(Name, Vec<Name>),
    Sequence(Box<Expr>, Box<Expr>),
}

/// A program: its top-level entries in source order.
pub type Program = Vec<Expr>;

/// The mathematical model of an `Expr`: names as character sequences and
/// argument lists as sequences.
pub enum Node {
    Float(NumberV),
    Var(Seq<char>),
    BinOp(Op, Box<Node>, Box<Node>),
    Call(Seq<char>, Seq<Node>),
    Function(Seq<char>, Seq<Seq<char>>, Box<Node>),
    IfExpr(Box<Node>, Box<Node>, Box<Node>),
    ForInExpr(Seq<char>, Box<Node>, Box<Node>, Box<Node>, Box<Node>),
    Extern(Seq<char>, Seq<Seq<char>>),
    Sequence(Box<Node>, Box<Node>),
}

/// The names of a list, as character sequences.
pub open spec fn names_view(v: Vec<Name>) -> Seq<Seq<char>> {
    v@.map_values(|n: Name| n@)
}

/// The models of a list of expressions.
pub open spec fn nodes(v: Seq<Expr>) -> Seq<Node> {
    Seq::new(v.len(), |i: int| v[i].node())
}

impl Expr {
    pub open spec fn node(self) -> Node
        decreases self,
    {
        match self {
            Expr::Float(n) => Node::Float(n@),
            Expr::Var(x) => Node::Var(x@),
            Expr::BinOp(op, l, r) => Node::BinOp(op, Box::new(l.node()), Box::new(r.node())),
            Expr::Call(f, args) => Node::Call(
                f@,
                Seq::new(
                    args@.len(),
                    |i: int|
                        if 0 <= i < args@.len() {
                            args@[i].node()
                        } else {
                            Node::Var(Seq::empty())
                        },
                ),
            ),
            Expr::Function(f, ps, b) => Node::Function(f@, names_view(ps), Box::new(b.node())),
            Expr::IfExpr(c, t, e) => Node::IfExpr(Box::new(c.node()), Box::new(t.node()), Box::new(e.node())),
            Expr::ForInExpr(x, a, c, s, b) => Node::ForInExpr(
                x@,
                Box::new(a.node()),
                Box::new(c.node()),
                Box::new(s.node()),
                Box::new(b.node()),
            ),
            Expr::Extern(f, ps) => Node::Extern(f@, names_view(ps)),
            Expr::Sequence(a, b) => Node::Sequence(Box::new(a.node()), Box::new(b.node())),
        }
    }
}

pub proof fn lemma_call_node(f: Name, args: Vec<Expr>)
    ensures
        Expr::Call(f, args).node() == Node::Call(f@, nodes(args@)),
{
    let n = Expr::Call(f, args).node();
    assert(n->Call_1 =~= nodes(args@));
}

} // verus!
