//! Lowering of parsed programs into the module form of `ir`.
//!
//! Every local variable lives in a stack slot: parameters are stored into
//! slots on entry, loop variables get a slot of their own, and each use loads
//! the slot. The scope table maps names to slots; a loop binds its variable
//! for its body, step and condition only, and leaves the table as it found it.
use vstd::prelude::*;
use crate::ast::{Expr, Name, Node, Number, NumberV, Op, Program, nodes, names_view};
use crate::ir::{
    Body, Function, Inst, InstV, Module, Value, body_well_formed, code_view, consts_view, check_body, closed, find_function, lemma_all_closed,
    lemma_fresh_block, lemma_push_other, lemma_push_plain, lemma_push_terminator, no_terminator, signatures,
};

verus! {

broadcast use vstd::std_specs::vec::group_vec_axioms;

/// Why a program cannot be lowered.
#[derive(Debug, PartialEq)]
pub enum CodegenError {
    /// A variable that no enclosing parameter or loop binds.
    UndefinedVariable(String),
    /// A call of a function that the module does not hold.
    UnknownFunction(String),
    /// A call whose argument count differs from the callee's parameter count.
    InvalidCall(String),
    /// A binary operator without lowering, or a declaration inside an expression.
    UnsupportedExpression,
    /// A function whose lowered body is not well formed; it was removed.
    InvalidGeneratedFunction(String),
    /// A top-level entry that is neither a function definition nor an extern declaration.
    TopLevelFormNotAllowed,
}

/// The model of a `CodegenError`.
pub enum Fault {
    UndefinedVariable(Seq<char>),
    UnknownFunction(Seq<char>),
    InvalidCall(Seq<char>),
    UnsupportedExpression,
    InvalidGeneratedFunction(Seq<char>),
    TopLevelFormNotAllowed,
}

impl CodegenError {
    pub open spec fn fault(&self) -> Fault {
        match self {
            CodegenError::UndefinedVariable(x) => Fault::UndefinedVariable(x@),
            CodegenError::UnknownFunction(x) => Fault::UnknownFunction(x@),
            CodegenError::InvalidCall(x) => Fault::InvalidCall(x@),
            CodegenError::UnsupportedExpression => Fault::UnsupportedExpression,
            CodegenError::InvalidGeneratedFunction(x) => Fault::InvalidGeneratedFunction(x@),
            CodegenError::TopLevelFormNotAllowed => Fault::TopLevelFormNotAllowed,
        }
    }
}

/// `a`, or `b` when `a` is `None`: the first of two faults in evaluation order.
pub open spec fn or_else(a: Option<Fault>, b: Option<Fault>) -> Option<Fault> {
    match a {
        Some(f) => Some(f),
        None => b,
    }
}

/// The fault that lowering `e` meets first, with the names `scope` bound and
/// the functions `sigs` in the module; `None` when it lowers.
///
/// Operands, arguments and branches are lowered left to right; a loop lowers
/// its start value, then, with its variable bound, its body, its step and its
/// condition.
pub open spec fn expr_fault(e: Node, scope: Seq<Seq<char>>, sigs: Seq<(Seq<char>, nat)>) -> Option<Fault>
    decreases e, 0nat,
{
    match e {
        Node::Float(_) => None,
        Node::Var(x) => if scope.contains(x) {
            None
        } else {
            Some(Fault::UndefinedVariable(x))
        },
        Node::BinOp(op, l, r) => or_else(
            expr_fault(*l, scope, sigs),
            or_else(
                expr_fault(*r, scope, sigs),
                if op is BitwiseOr || op is BitwiseAnd {
                    Some(Fault::UnsupportedExpression)
                } else {
                    None
                },
            ),
        ),
        Node::Call(f, args) => match find_function(sigs, f, 0) {
            None => Some(Fault::UnknownFunction(f)),
            Some(k) => or_else(
                args_fault(args, 0, scope, sigs),
                if 0 <= k < sigs.len() && sigs[k].1 == args.len() {
                    None
                } else {
                    Some(Fault::InvalidCall(f))
                },
            ),
        },
        Node::IfExpr(c, t, f) => or_else(
            expr_fault(*c, scope, sigs),
            or_else(expr_fault(*t, scope, sigs), expr_fault(*f, scope, sigs)),
        ),
        Node::ForInExpr(x, a, c, st, b) => or_else(
            expr_fault(*a, scope, sigs),
            or_else(
                expr_fault(*b, scope.push(x), sigs),
                or_else(expr_fault(*st, scope.push(x), sigs), expr_fault(*c, scope.push(x), sigs)),
            ),
        ),
        Node::Sequence(a, b) => or_else(expr_fault(*a, scope, sigs), expr_fault(*b, scope, sigs)),
        Node::Function(..) | Node::Extern(..) => Some(Fault::UnsupportedExpression),
    }
}

/// The first fault among the arguments `args` from index `k` on.
pub open spec fn args_fault(args: Seq<Node>, k: int, scope: Seq<Seq<char>>, sigs: Seq<(Seq<char>, nat)>) -> Option<Fault>
    decreases args, args.len() - k,
{
    if 0 <= k < args.len() {
        or_else(expr_fault(args[k], scope, sigs), args_fault(args, k + 1, scope, sigs))
    } else {
        None
    }
}

/// A reference to an unbound variable fails with `UndefinedVariable` naming
/// it, also as an operand after one that lowers; and a call of a function
/// that the module lacks fails with `UnknownFunction` naming it, whatever the
/// arguments.
pub proof fn lemma_error_kinds(
    x: Seq<char>,
    f: Seq<char>,
    args: Seq<Node>,
    scope: Seq<Seq<char>>,
    sigs: Seq<(Seq<char>, nat)>,
    op: Op,
    l: Node,
)
    ensures
        !scope.contains(x) ==> expr_fault(Node::Var(x), scope, sigs) == Some(Fault::UndefinedVariable(x)),
        !scope.contains(x) && expr_fault(l, scope, sigs) is None ==> expr_fault(
            Node::BinOp(op, Box::new(l), Box::new(Node::Var(x))),
            scope,
            sigs,
        ) == Some(Fault::UndefinedVariable(x)),
        find_function(sigs, f, 0) is None ==> expr_fault(Node::Call(f, args), scope, sigs) == Some(
            Fault::UnknownFunction(f),
        ),
{
}

/// The slot of the innermost binding of `x` among the first `n` bindings.
pub open spec fn innermost(v: Seq<(Seq<char>, usize)>, x: Seq<char>, n: int) -> Option<usize>
    decreases n,
{
    if n <= 0 || n > v.len() {
        None
    } else if v[n - 1].0 == x {
        Some(v[n - 1].1)
    } else {
        innermost(v, x, n - 1)
    }
}

/// The names bound by a scope table, innermost last.
pub open spec fn scope_names(v: Seq<(String, usize)>) -> Seq<Seq<char>> {
    v.map_values(|b: (String, usize)| b.0@)
}

/// The first fault that compiling the top-level entries `ds` from index `k`
/// on meets, with the functions `sigs` in the module before them. A function
/// is visible in its own body and after it; an extern declaration after it.
pub open spec fn program_fault(ds: Seq<Node>, k: int, sigs: Seq<(Seq<char>, nat)>) -> Option<Fault>
    decreases ds.len() - k,
{
    if k < 0 || k >= ds.len() {
        None
    } else {
        match ds[k] {
            Node::Function(f, ps, b) => or_else(
                expr_fault(*b, ps, sigs.push((f, ps.len()))),
                program_fault(ds, k + 1, sigs.push((f, ps.len()))),
            ),
            Node::Extern(f, ps) => program_fault(ds, k + 1, sigs.push((f, ps.len()))),
            _ => Some(Fault::TopLevelFormNotAllowed),
        }
    }
}

/// `b` is `a` after lowering into `a`'s current block: instructions went
/// only to that block and to blocks created since, every block left behind
/// ends with its one terminator, and the block now current has none.
pub open spec fn grows(a: CodeGen, b: CodeGen) -> bool {
    &&& no_terminator(b.body.code@, b.current as int)
    &&& b.body.blocks@.len() >= a.body.blocks@.len()
    &&& (b.current != a.current ==> closed(b.body.code@, a.current as int) && b.current
        >= a.body.blocks@.len())
    &&& forall|k: int|
        a.body.blocks@.len() <= k < b.body.blocks@.len() && k != b.current ==> #[trigger] closed(
            b.body.code@,
            k,
        )
    &&& forall|k: int|
        0 <= k < a.body.blocks@.len() && k != a.current ==> (closed(a.body.code@, k) ==> #[trigger] closed(
            b.body.code@,
            k,
        ))
    &&& forall|k: int|
        0 <= k < a.body.blocks@.len() && k != a.current ==> (no_terminator(a.body.code@, k)
            ==> #[trigger] no_terminator(b.body.code@, k))
}

proof fn lemma_grows_trans(a: CodeGen, b: CodeGen, c: CodeGen)
    requires
        a.current < a.body.blocks@.len(),
        grows(a, b),
        grows(b, c),
    ensures
        grows(a, c),
{
    assert forall|k: int|
        a.body.blocks@.len() <= k < c.body.blocks@.len() && k != c.current implies #[trigger] closed(
        c.body.code@,
        k,
    ) by {
        if k < b.body.blocks@.len() && k != b.current {
            assert(closed(b.body.code@, k));
        }
    }
    if c.current != a.current && b.current != a.current {
        assert(closed(b.body.code@, a.current as int));
    }
}

proof fn lemma_grows_refl(a: CodeGen)
    requires
        no_terminator(a.body.code@, a.current as int),
    ensures
        grows(a, a),
{
}

/// The models of a scope table's bindings.
pub open spec fn vars_view(v: Seq<(String, usize)>) -> Seq<(Seq<char>, usize)> {
    v.map_values(|b: (String, usize)| (b.0@, b.1))
}

/// The model of the lowering state: the scope table, the numbers of slots
/// and blocks, the instructions so far, the constants, and the current block.
pub struct Low {
    pub vars: Seq<(Seq<char>, usize)>,
    pub slots: nat,
    pub blocks: nat,
    pub code: Seq<(usize, InstV)>,
    pub consts: Seq<NumberV>,
    pub current: usize,
}

/// Appends `i` to the current block; the value is the new instruction's.
pub open spec fn emit_low(st: Low, i: InstV) -> (Low, Value) {
    (Low { code: st.code.push((st.current, i)), ..st }, Value::Reg(st.code.len() as usize))
}

/// The slot of the innermost binding of `x`.
pub open spec fn slot_of(vars: Seq<(Seq<char>, usize)>, x: Seq<char>) -> usize {
    match innermost(vars, x, vars.len() as int) {
        Some(k) => k,
        None => 0,
    }
}

/// The literal zero, the value of a loop.
pub open spec fn zero() -> NumberV {
    NumberV { negative: false, digits: seq![], exponent: 0 }
}

/// What lowering `e` from state `st` produces, where `e` lowers without a
/// fault: the next state and the value of `e`.
///
/// - A literal adds a constant and is that constant.
/// - A variable loads the slot of its innermost binding.
/// - An operator lowers its left, then its right operand, then applies itself to the two values.
/// - A call lowers its arguments in order, then calls the first function of that name with their values.
/// - A conditional lowers its condition, creates a then, an else and a merge block,
///   branches on the condition to the first two, lowers each branch into its block
///   followed by a jump to the merge block, and in the merge block selects the
///   value of the branch that control came from.
/// - A loop takes a fresh slot, stores its start value there, and jumps to a new loop
///   block; there, with its variable bound to the slot, it lowers the body and the
///   step, adds the step to the slot, lowers the condition, and branches back to
///   the loop block or on to a new after block while the condition holds. The
///   binding is then dropped, and the value is zero.
/// - A sequence lowers both parts and is the second part's value.
pub open spec fn lower(e: Node, st: Low, sigs: Seq<(Seq<char>, nat)>) -> (Low, Value)
    decreases e, 1nat,
{
    match e {
        Node::Float(n) => (Low { consts: st.consts.push(n), ..st }, Value::Const(st.consts.len() as usize)),
        Node::Var(x) => emit_low(st, InstV::Load(slot_of(st.vars, x))),
        Node::BinOp(op, l, r) => {
            let (s1, lv) = lower(*l, st, sigs);
            let (s2, rv) = lower(*r, s1, sigs);
            emit_low(s2, InstV::Binary(op, lv, rv))
        },
        Node::Call(f, args) => {
            let k = match find_function(sigs, f, 0) {
                Some(k) => k as usize,
                None => 0,
            };
            let (s1, vs) = lower_args(args, 0, st, sigs, seq![]);
            emit_low(s1, InstV::Call(k, vs))
        },
        Node::IfExpr(c, t, f) => {
            let (s1, cv) = lower(*c, st, sigs);
            let tb = s1.blocks as usize;
            let eb = (s1.blocks + 1) as usize;
            let mb = (s1.blocks + 2) as usize;
            let s2 = emit_low(Low { blocks: s1.blocks + 3, ..s1 }, InstV::CondBranch(cv, tb, eb)).0;
            let (s3, tv) = lower(*t, Low { current: tb, ..s2 }, sigs);
            let s4 = emit_low(s3, InstV::Branch(mb)).0;
            let (s5, fv) = lower(*f, Low { current: eb, ..s4 }, sigs);
            let s6 = emit_low(s5, InstV::Branch(mb)).0;
            emit_low(Low { current: mb, ..s6 }, InstV::Phi(seq![(tv, s3.current), (fv, s5.current)]))
        },
        Node::ForInExpr(x, a, c, step, b) => {
            let slot = st.slots as usize;
            let (s1, av) = lower(*a, Low { slots: st.slots + 1, ..st }, sigs);
            let s2 = emit_low(s1, InstV::Store(slot, av)).0;
            let lb = s2.blocks as usize;
            let s3 = emit_low(Low { blocks: s2.blocks + 1, ..s2 }, InstV::Branch(lb)).0;
            let s4 = lower(*b, Low { current: lb, vars: s3.vars.push((x, slot)), ..s3 }, sigs).0;
            let (s5, sv) = lower(*step, s4, sigs);
            let (s6, cur) = emit_low(s5, InstV::Load(slot));
            let (s7, next) = emit_low(s6, InstV::Binary(Op::Plus, cur, sv));
            let s8 = emit_low(s7, InstV::Store(slot, next)).0;
            let (s9, cv) = lower(*c, s8, sigs);
            let ab = s9.blocks as usize;
            let s10 = emit_low(Low { blocks: s9.blocks + 1, ..s9 }, InstV::CondBranch(cv, lb, ab)).0;
            (
                Low { current: ab, vars: st.vars, consts: s10.consts.push(zero()), ..s10 },
                Value::Const(s10.consts.len() as usize),
            )
        },
        Node::Sequence(a, b) => {
            let s1 = lower(*a, st, sigs).0;
            lower(*b, s1, sigs)
        },
        _ => (st, Value::Reg(0)),
    }
}

/// Lowers the arguments from index `k` on, in order, after those whose values are `acc`.
pub open spec fn lower_args(args: Seq<Node>, k: int, st: Low, sigs: Seq<(Seq<char>, nat)>, acc: Seq<Value>) -> (Low, Seq<Value>)
    decreases args, args.len() - k,
{
    if 0 <= k < args.len() {
        let (s1, v) = lower(args[k], st, sigs);
        lower_args(args, k + 1, s1, sigs, acc.push(v))
    } else {
        (st, acc)
    }
}

/// The state after storing the parameters from index `k` on into slots of
/// their own, in the current block, and binding their names to those slots.
pub open spec fn prologue(ps: Seq<Seq<char>>, k: int, st: Low) -> Low
    decreases ps.len() - k,
{
    if 0 <= k < ps.len() {
        let slot = st.slots as usize;
        prologue(
            ps,
            k + 1,
            Low {
                slots: st.slots + 1,
                code: st.code.push((st.current, InstV::Store(slot, Value::Param(k as usize)))),
                vars: st.vars.push((ps[k], slot)),
                ..st
            },
        )
    } else {
        st
    }
}

/// The state of a function under construction before its prologue: one entry
/// block, and nothing else.
pub open spec fn entry_state() -> Low {
    Low { vars: seq![], slots: 0, blocks: 1, code: seq![], consts: seq![], current: 0 }
}

/// The lowered body of a function with parameters `ps` and body `b`: the
/// prologue, then the body's lowering, then a return of the body's value.
pub open spec fn lowered_fn(ps: Seq<Seq<char>>, b: Node, sigs: Seq<(Seq<char>, nat)>) -> Low {
    let s1 = prologue(ps, 0, entry_state());
    let (s2, v) = lower(b, s1, sigs);
    emit_low(s2, InstV::Return(v)).0
}

/// `bd` holds what `l` describes: its slots, its blocks, its instructions and its constants.
pub open spec fn body_is(bd: Body, l: Low) -> bool {
    &&& bd.slots@.len() == l.slots
    &&& bd.blocks@.len() == l.blocks
    &&& code_view(bd.code@) == l.code
    &&& consts_view(bd.consts@) == l.consts
}

/// The name and arity that a top-level entry adds to the module.
pub open spec fn entry_sig(d: Node) -> (Seq<char>, nat) {
    match d {
        Node::Function(f, ps, _) => (f, ps.len()),
        Node::Extern(f, ps) => (f, ps.len()),
        _ => (seq![], 0),
    }
}

/// The functions of the module after the first `k` entries of `ds`, from `sigs`.
pub open spec fn sigs_upto(ds: Seq<Node>, k: int, sigs: Seq<(Seq<char>, nat)>) -> Seq<(Seq<char>, nat)>
    decreases k,
{
    if k <= 0 {
        sigs
    } else {
        sigs_upto(ds, k - 1, sigs).push(entry_sig(ds[k - 1]))
    }
}

/// `f` is what compiling the entry `d` adds, with the functions `sigs` before it:
/// a definition gives its name, parameters and lowered body; an extern
/// declaration gives its name and parameters, and no body.
pub open spec fn entry_compiled(f: Function, d: Node, sigs: Seq<(Seq<char>, nat)>) -> bool {
    match d {
        Node::Function(name, ps, b) => {
            &&& f.name@ == name
            &&& names_view(f.params) == ps
            &&& f.body matches Some(bd) && body_is(bd, lowered_fn(ps, *b, sigs.push((name, ps.len()))))
        },
        Node::Extern(name, ps) => f.name@ == name && names_view(f.params) == ps && f.body is None,
        _ => false,
    }
}

/// The fault that compiling the entry `d` meets, with the functions `sigs` before it.
pub open spec fn entry_fault(d: Node, sigs: Seq<(Seq<char>, nat)>) -> Option<Fault> {
    match d {
        Node::Function(f, ps, b) => expr_fault(*b, ps, sigs.push((f, ps.len()))),
        Node::Extern(..) => None,
        _ => Some(Fault::TopLevelFormNotAllowed),
    }
}

/// The compiler state: the module built so far, and the function under construction.
pub struct CodeGen {
    pub module: Module,
    pub variables: Vec<(String, usize)>,
    pub body: Body,
    pub current: usize,
}

impl CodeGen {
    /// The names in scope, innermost last.
    pub open spec fn scope(&self) -> Seq<Seq<char>> {
        scope_names(self.variables@)
    }

    /// The block that instructions are being added to, and every binding's slot, exist.
    pub open spec fn wf(&self) -> bool {
        &&& self.current < self.body.blocks@.len()
        &&& forall|k: int|
            0 <= k < self.variables@.len() ==> #[trigger] self.variables@[k].1
                < self.body.slots@.len()
        &&& forall|i: int|
            0 <= i < self.body.code@.len() ==> (#[trigger] self.body.code@[i]).0
                < self.body.blocks@.len()
    }

    pub open spec fn code_len(&self) -> nat {
        self.body.code@.len()
    }

    /// The model of the lowering state.
    pub open spec fn low(&self) -> Low {
        Low {
            vars: vars_view(self.variables@),
            slots: self.body.slots@.len(),
            blocks: self.body.blocks@.len(),
            code: code_view(self.body.code@),
            consts: consts_view(self.body.consts@),
            current: self.current,
        }
    }

    /// A compiler with an empty module.
    pub fn mk_compiler() -> (r: CodeGen)
        ensures
            r.wf(),
            r.module.functions@.len() == 0,
            r.scope().len() == 0,
    {
        let mut blocks: Vec<String> = Vec::new();
        blocks.push(String::new());
        CodeGen {
            module: Module { functions: Vec::new() },
            variables: Vec::new(),
            body: Body { slots: Vec::new(), blocks, code: Vec::new(), consts: Vec::new() },
            current: 0,
        }
    }

    fn emit(&mut self, i: Inst) -> (r: Value)
        requires
            old(self).wf(),
        ensures
            final(self).wf(),
            final(self).module == old(self).module,
            final(self).variables == old(self).variables,
            final(self).body.slots == old(self).body.slots,
            final(self).body.blocks == old(self).body.blocks,
            final(self).current == old(self).current,
            final(self).body.code@ == old(self).body.code@.push((old(self).current, i)),
            final(self).body.consts == old(self).body.consts,
            r == Value::Reg(old(self).body.code@.len() as usize),
            (final(self).low(), r) == emit_low(old(self).low(), i@),
            forall|b: int|
                b != old(self).current ==> (closed(old(self).body.code@, b) ==> #[trigger] closed(
                    final(self).body.code@,
                    b,
                )),
            forall|b: int|
                b != old(self).current ==> (no_terminator(old(self).body.code@, b) ==> #[trigger] no_terminator(
                    final(self).body.code@,
                    b,
                )),
            no_terminator(old(self).body.code@, old(self).current as int) && !i.is_terminator() ==> grows(
                *old(self),
                *final(self),
            ),
            no_terminator(old(self).body.code@, old(self).current as int) && i.is_terminator() ==> closed(
                final(self).body.code@,
                old(self).current as int,
            ),
    {
        let n = self.body.code.len();
        let ghost before = self.body.code@;
        let ghost iv = i@;
        self.body.code.push((self.current, i));
        proof {
            assert(code_view(self.body.code@) =~= code_view(before).push((old(self).current, iv)));
            assert forall|b: int| b != old(self).current implies (closed(before, b) ==> #[trigger] closed(
                self.body.code@,
                b,
            )) && (no_terminator(before, b) ==> no_terminator(self.body.code@, b)) by {
                lemma_push_other(before, (old(self).current, i), b);
            }
            if no_terminator(before, self.current as int) {
                if i.is_terminator() {
                    lemma_push_terminator(before, self.current, i);
                } else {
                    lemma_push_plain(before, self.current, i);
                }
            }
        }
        Value::Reg(n)
    }

    fn new_block(&mut self, name: &str) -> (r: usize)
        requires
            old(self).wf(),
        ensures
            final(self).wf(),
            final(self).module == old(self).module,
            final(self).variables == old(self).variables,
            final(self).body.slots == old(self).body.slots,
            final(self).body.code == old(self).body.code,
            final(self).current == old(self).current,
            final(self).body.blocks@.len() == old(self).body.blocks@.len() + 1,
            final(self).body.consts == old(self).body.consts,
            final(self).low() == (Low { blocks: old(self).low().blocks + 1, ..old(self).low() }),
            r == old(self).body.blocks@.len(),
    {
        let n = self.body.blocks.len();
        self.body.blocks.push(name.to_owned());
        n
    }

    fn new_slot(&mut self, name: &String) -> (r: usize)
        requires
            old(self).wf(),
        ensures
            final(self).wf(),
            final(self).module == old(self).module,
            final(self).variables == old(self).variables,
            final(self).body.blocks == old(self).body.blocks,
            final(self).body.code == old(self).body.code,
            final(self).current == old(self).current,
            final(self).body.slots@.len() == old(self).body.slots@.len() + 1,
            final(self).body.consts == old(self).body.consts,
            final(self).low() == (Low { slots: old(self).low().slots + 1, ..old(self).low() }),
            r == old(self).body.slots@.len(),
    {
        let n = self.body.slots.len();
        self.body.slots.push(name.clone());
        n
    }

    fn add_const(&mut self, n: Number) -> (r: usize)
        requires
            old(self).wf(),
        ensures
            final(self).wf(),
            final(self).module == old(self).module,
            final(self).variables == old(self).variables,
            final(self).body.blocks == old(self).body.blocks,
            final(self).body.slots == old(self).body.slots,
            final(self).body.code == old(self).body.code,
            final(self).current == old(self).current,
            final(self).low() == (Low { consts: old(self).low().consts.push(n@), ..old(self).low() }),
            r == old(self).body.consts@.len(),
    {
        let k = self.body.consts.len();
        self.body.consts.push(n);
        proof {
            assert(consts_view(self.body.consts@) =~= consts_view(old(self).body.consts@).push(n@));
        }
        k
    }

    /// The slot of the innermost binding of `x`.
    fn lookup(&self, x: &String) -> (r: Option<usize>)
        requires
            self.wf(),
        ensures
            r is Some <==> self.scope().contains(x@),
            r == innermost(vars_view(self.variables@), x@, self.variables@.len() as int),
    {
        let mut k = self.variables.len();
        while k > 0
            invariant
                k <= self.variables@.len(),
                forall|m: int| k <= m < self.variables@.len() ==> self.variables@[m].0@ != x@,
                innermost(vars_view(self.variables@), x@, k as int) == innermost(
                    vars_view(self.variables@),
                    x@,
                    self.variables@.len() as int,
                ),
            decreases k,
        {
            k = k - 1;
            if self.variables[k].0 == *x {
                proof {
                    assert(self.scope()[k as int] == x@);
                }
                return Some(self.variables[k].1);
            }
        }
        proof {
            if self.scope().contains(x@) {
                let m = choose|m: int| 0 <= m < self.scope().len() && self.scope()[m] == x@;
                assert(self.variables@[m].0@ == x@);
            }
        }
        None
    }

    /// The index of the first function of the module called `f`.
    fn function_index(&self, f: &String) -> (r: Option<usize>)
        ensures
            find_function(signatures(self.module.functions@), f@, 0) is None <==> r is None,
            r matches Some(k) ==> find_function(signatures(self.module.functions@), f@, 0) == Some(
                k as int,
            ) && k < self.module.functions@.len(),
    {
        let ghost sigs = signatures(self.module.functions@);
        let mut k: usize = 0;
        while k < self.module.functions.len()
            invariant
                k <= self.module.functions@.len(),
                sigs == signatures(self.module.functions@),
                find_function(sigs, f@, k as int) == find_function(sigs, f@, 0),
            decreases self.module.functions@.len() - k,
        {
            if self.module.functions[k].name == *f {
                return Some(k);
            }
            k = k + 1;
        }
        None
    }

    /// Lowers `e` into the function under construction, at the end of the
    /// current block, and gives the value it computes.
    ///
    /// It fails exactly where `expr_fault` finds a fault, with that fault. On
    /// success it does exactly what `lower` describes. On success and on
    /// failure alike the scope table and the module are left as they were.
    /// Every block that lowering leaves behind ends with its one terminator,
    /// and the block it ends in has none yet (`grows`).
    pub fn compile_expr(&mut self, e: &Expr) -> (r: Result<Value, CodegenError>)
        requires
            old(self).wf(),
            no_terminator(old(self).body.code@, old(self).current as int),
        ensures
            r is Ok ==> grows(*old(self), *final(self)),
            final(self).wf(),
            final(self).variables@ == old(self).variables@,
            final(self).module == old(self).module,
            final(self).body.slots@.len() >= old(self).body.slots@.len(),
            final(self).body.blocks@.len() >= old(self).body.blocks@.len(),
            r is Err <==> expr_fault(e.node(), old(self).scope(), signatures(old(self).module.functions@)) is Some,
            r matches Err(x) ==> expr_fault(e.node(), old(self).scope(), signatures(old(self).module.functions@))
                == Some(x.fault()),
            r is Ok ==> lower(e.node(), old(self).low(), signatures(old(self).module.functions@)) == (
                final(self).low(),
                r->Ok_0,
            ),
            (e is Call && find_function(signatures(old(self).module.functions@), e->Call_0@, 0) is None)
                ==> final(self).low() == old(self).low(),
        decreases e, 1nat,
    {
        let ghost sigs = signatures(self.module.functions@);
        proof {
            lemma_grows_refl(*self);
        }
        match e {
            Expr::Float(n) => {
                let k = self.add_const(n.copy());
                proof {
                    assert(lower(e.node(), old(self).low(), sigs) == (self.low(), Value::Const(k)));
                }
                Ok(Value::Const(k))
            },
            Expr::Var(x) => match self.lookup(x) {
                Some(slot) => {
                    proof {
                        assert(slot_of(old(self).low().vars, x@) == slot);
                    }
                    let v = self.emit(Inst::Load(slot));
                    proof {
                        assert(lower(e.node(), old(self).low(), sigs) == (self.low(), v));
                    }
                    Ok(v)
                },
                None => Err(CodegenError::UndefinedVariable(x.clone())),
            },
            Expr::BinOp(op, l, r) => {
                let lhs = match self.compile_expr(l) {
                    Ok(v) => v,
                    Err(x) => {
                        return Err(x);
                    },
                };
                let ghost s1 = *self;
                let rhs = match self.compile_expr(r) {
                    Ok(v) => v,
                    Err(x) => {
                        return Err(x);
                    },
                };
                proof {
                    lemma_grows_trans(*old(self), s1, *self);
                }
                let ghost s2 = *self;
                match op {
                    Op::BitwiseOr | Op::BitwiseAnd => Err(CodegenError::UnsupportedExpression),
                    _ => {
                        let v = self.emit(Inst::Binary(*op, lhs, rhs));
                        proof {
                            lemma_grows_trans(*old(self), s2, *self);
                            let (l1, lv) = lower(l.node(), old(self).low(), sigs);
                            assert(l1 == s1.low() && lv == lhs);
                            let (l2, rv) = lower(r.node(), l1, sigs);
                            assert(l2 == s2.low() && rv == rhs);
                            assert(lower(e.node(), old(self).low(), sigs) == (self.low(), v));
                        }
                        Ok(v)
                    },
                }
            },
            Expr::Call(f, args) => {
                proof {
                    crate::ast::lemma_call_node(*f, *args);
                }
                let callee = match self.function_index(f) {
                    Some(k) => k,
                    None => {
                        return Err(CodegenError::UnknownFunction(f.clone()));
                    },
                };
                assert(*e == Expr::Call(*f, *args));
                let mut values: Vec<Value> = Vec::new();
                let mut k: usize = 0;
                while k < args.len()
                    invariant
                        self.wf(),
                        self.variables@ == old(self).variables@,
                        self.module == old(self).module,
                        sigs == signatures(self.module.functions@),
                        k <= args@.len(),
                        self.body.slots@.len() >= old(self).body.slots@.len(),
                        self.body.blocks@.len() >= old(self).body.blocks@.len(),
                        *e == Expr::Call(*f, *args),
                        e.node() == Node::Call(f@, nodes(args@)),
                        find_function(sigs, f@, 0) == Some(callee as int),
                        callee < self.module.functions@.len(),
                        values@.len() == k,
                        lower_args(nodes(args@), k as int, self.low(), sigs, values@) == lower_args(
                            nodes(args@),
                            0,
                            old(self).low(),
                            sigs,
                            seq![],
                        ),
                        grows(*old(self), *self),
                        old(self).wf(),
                        args_fault(nodes(args@), k as int, old(self).scope(), sigs) == args_fault(
                            nodes(args@),
                            0,
                            old(self).scope(),
                            sigs,
                        ),
                    decreases args@.len() - k,
                {
                    proof {
                        assert(decreases_to!(*e => (*e)->Call_1));
                        assert(decreases_to!((*e)->Call_1 => (*e)->Call_1@));
                        assert(decreases_to!((*e)->Call_1@ => (*e)->Call_1@[k as int]));
                    }
                    let ghost s1 = *self;
                    let ghost acc = values@;
                    match self.compile_expr(&args[k]) {
                        Ok(v) => {
                            values.push(v);
                            proof {
                                assert(nodes(args@)[k as int] == args@[k as int].node());
                                assert(lower_args(nodes(args@), k as int, s1.low(), sigs, acc) == lower_args(
                                    nodes(args@),
                                    k + 1,
                                    self.low(),
                                    sigs,
                                    values@,
                                ));
                            }
                        },
                        Err(x) => {
                            return Err(x);
                        },
                    }
                    proof {
                        lemma_grows_trans(*old(self), s1, *self);
                    }
                    k = k + 1;
                }
                if self.module.functions[callee].params.len() != args.len() {
                    return Err(CodegenError::InvalidCall(f.clone()));
                }
                let ghost s2 = *self;
                let ghost vs = values@;
                proof {
                    assert(lower_args(nodes(args@), args@.len() as int, self.low(), sigs, vs) == (self.low(), vs));
                }
                let v = self.emit(Inst::Call(callee, values));
                proof {
                    lemma_grows_trans(*old(self), s2, *self);
                    assert(lower(e.node(), old(self).low(), sigs) == (self.low(), v));
                }
                Ok(v)
            },
            Expr::IfExpr(..) => self.compile_if(e),
            Expr::ForInExpr(..) => self.compile_for(e),
            Expr::Sequence(a, b) => {
                match self.compile_expr(a) {
                    Ok(_) => {},
                    Err(x) => {
                        return Err(x);
                    },
                }
                let ghost s1 = *self;
                let r = self.compile_expr(b);
                proof {
                    if r is Ok {
                        lemma_grows_trans(*old(self), s1, *self);
                        assert(lower(a.node(), old(self).low(), sigs).0 == s1.low());
                        assert(lower(e.node(), old(self).low(), sigs) == (self.low(), r->Ok_0));
                    }
                }
                r
            },
            Expr::Function(..) | Expr::Extern(..) => Err(CodegenError::UnsupportedExpression),
        }
    }

    /// Lowers a conditional: the condition's value is compared with zero,
    /// each branch is lowered into a block of its own that ends by jumping to
    /// a merge block, and the merge block selects the value of the branch
    /// that control came from.
    fn compile_if(&mut self, e: &Expr) -> (r: Result<Value, CodegenError>)
        requires
            e is IfExpr,
            old(self).wf(),
            no_terminator(old(self).body.code@, old(self).current as int),
        ensures
            r is Ok ==> grows(*old(self), *final(self)),
            final(self).wf(),
            final(self).variables@ == old(self).variables@,
            final(self).module == old(self).module,
            final(self).body.slots@.len() >= old(self).body.slots@.len(),
            final(self).body.blocks@.len() >= old(self).body.blocks@.len(),
            r is Err <==> expr_fault(e.node(), old(self).scope(), signatures(old(self).module.functions@)) is Some,
            r matches Err(x) ==> expr_fault(e.node(), old(self).scope(), signatures(old(self).module.functions@))
                == Some(x.fault()),
            r is Ok ==> lower(e.node(), old(self).low(), signatures(old(self).module.functions@)) == (
                final(self).low(),
                r->Ok_0,
            ),
        decreases e, 0nat,
    {
        match e {
            Expr::IfExpr(c, t, f) => {
                let ghost s0 = *self;
                let cond = match self.compile_expr(c) {
                    Ok(v) => v,
                    Err(x) => {
                        return Err(x);
                    },
                };
                let ghost s1 = *self;
                let then_block = self.new_block("then");
                let else_block = self.new_block("else");
                let merge_block = self.new_block("ifcont");
                let ghost b1 = self.low();
                self.emit(Inst::CondBranch(cond, then_block, else_block));
                let ghost a1 = self.low();
                self.current = then_block;
                proof {
                    lemma_fresh_block(self.body.code@, then_block as int);
                    lemma_fresh_block(self.body.code@, else_block as int);
                    lemma_fresh_block(self.body.code@, merge_block as int);
                }
                let ghost s2 = *self;
                let then_value = match self.compile_expr(t) {
                    Ok(v) => v,
                    Err(x) => {
                        return Err(x);
                    },
                };
                let ghost s3 = *self;
                self.emit(Inst::Branch(merge_block));
                let ghost a3 = self.low();
                let then_end = self.current;
                self.current = else_block;
                let ghost s4 = *self;
                let else_value = match self.compile_expr(f) {
                    Ok(v) => v,
                    Err(x) => {
                        return Err(x);
                    },
                };
                let ghost s5 = *self;
                self.emit(Inst::Branch(merge_block));
                let ghost a5 = self.low();
                let else_end = self.current;
                self.current = merge_block;
                let ghost s6 = *self;
                let mut incoming: Vec<(Value, usize)> = Vec::new();
                incoming.push((then_value, then_end));
                incoming.push((else_value, else_end));
                let ghost inc = incoming@;
                let ghost a6 = self.low();
                let v = self.emit(Inst::Phi(incoming));
                proof {
                    let sg = signatures(s0.module.functions@);
                    let st = s0.low();
                    let (l1, cv) = lower(c.node(), st, sg);
                    assert(l1 == s1.low() && cv == cond);
                    let tb = l1.blocks as usize;
                    let eb = (l1.blocks + 1) as usize;
                    let mb = (l1.blocks + 2) as usize;
                    assert(b1 == (Low { blocks: l1.blocks + 3, ..l1 }));
                    let l2 = emit_low(Low { blocks: l1.blocks + 3, ..l1 }, InstV::CondBranch(cv, tb, eb)).0;
                    assert(a1 == l2);
                    assert(s2.low() == (Low { current: tb, ..l2 }));
                    let (l3, tv) = lower(t.node(), Low { current: tb, ..l2 }, sg);
                    assert(l3 == s3.low() && tv == then_value);
                    let l4 = emit_low(l3, InstV::Branch(mb)).0;
                    assert(a3 == l4);
                    assert(s4.low() == (Low { current: eb, ..l4 }));
                    let (l5, fv) = lower(f.node(), Low { current: eb, ..l4 }, sg);
                    assert(l5 == s5.low() && fv == else_value);
                    let l6 = emit_low(l5, InstV::Branch(mb)).0;
                    assert(a5 == l6);
                    assert(a6 == (Low { current: mb, ..l6 }));
                    assert(inc =~= seq![(tv, l3.current), (fv, l5.current)]);
                    assert(lower(e.node(), st, sg) == (self.low(), v));
                    let n0 = s0.body.blocks@.len() as int;
                    let n1 = s1.body.blocks@.len() as int;
                    let n3 = s3.body.blocks@.len() as int;
                    let n5 = s5.body.blocks@.len() as int;
                    assert(then_block == n1 && else_block == n1 + 1 && merge_block == n1 + 2);
                    assert(closed(s2.body.code@, s1.current as int));
                    assert(closed(s4.body.code@, s3.current as int));
                    assert(closed(s6.body.code@, s5.current as int));
                    assert(no_terminator(s6.body.code@, merge_block as int));
                    assert forall|k: int|
                        n0 <= k < self.body.blocks@.len() && k != self.current implies #[trigger] closed(
                        self.body.code@,
                        k,
                    ) by {
                        if k < n1 {
                            if k != s1.current {
                                assert(closed(s1.body.code@, k));
                            }
                            assert(closed(s2.body.code@, k));
                            assert(closed(s3.body.code@, k));
                        } else if k == then_block {
                            if s3.current != then_block {
                                assert(closed(s3.body.code@, k));
                            }
                            assert(closed(s4.body.code@, k));
                        } else if k == else_block {
                            assert(closed(s4.body.code@, s3.current as int));
                            if s5.current != else_block {
                                assert(closed(s5.body.code@, k));
                            }
                            assert(closed(s6.body.code@, k));
                        } else if k < n3 {
                            if k != s3.current {
                                assert(closed(s3.body.code@, k));
                            }
                            assert(closed(s4.body.code@, k));
                        } else {
                            if k != s5.current {
                                assert(closed(s5.body.code@, k));
                            }
                            assert(closed(s6.body.code@, k));
                        }
                        assert(closed(s6.body.code@, k));
                    }
                    if s1.current != s0.current {
                        assert(closed(s1.body.code@, s0.current as int));
                    }
                    assert(closed(s2.body.code@, s0.current as int));
                    assert(closed(s3.body.code@, s0.current as int));
                    assert(closed(s4.body.code@, s0.current as int));
                    assert(closed(s5.body.code@, s0.current as int));
                    assert(closed(s6.body.code@, s0.current as int));
                    assert forall|k: int|
                        0 <= k < n0 && k != s0.current implies (closed(s0.body.code@, k) ==> #[trigger] closed(
                        self.body.code@,
                        k,
                    )) && (no_terminator(s0.body.code@, k) ==> no_terminator(self.body.code@, k)) by {
                        if closed(s0.body.code@, k) {
                            assert(closed(s1.body.code@, k));
                            assert(closed(s3.body.code@, k));
                            assert(closed(s5.body.code@, k));
                        }
                        if no_terminator(s0.body.code@, k) {
                            assert(no_terminator(s1.body.code@, k));
                            assert(no_terminator(s3.body.code@, k));
                            assert(no_terminator(s5.body.code@, k));
                        }
                    }
                }
                Ok(v)
            },
            _ => Err(CodegenError::UnsupportedExpression),
        }
    }

    /// Lowers a loop: its variable gets a slot of its own, bound for the
    /// body, the step and the condition and unbound after; the loop block runs
    /// the body, adds the step to the variable, and jumps back while the
    /// condition is not zero. Its value is zero.
    fn compile_for(&mut self, e: &Expr) -> (r: Result<Value, CodegenError>)
        requires
            e is ForInExpr,
            old(self).wf(),
            no_terminator(old(self).body.code@, old(self).current as int),
        ensures
            r is Ok ==> grows(*old(self), *final(self)),
            final(self).wf(),
            final(self).variables@ == old(self).variables@,
            final(self).module == old(self).module,
            final(self).body.slots@.len() >= old(self).body.slots@.len(),
            final(self).body.blocks@.len() >= old(self).body.blocks@.len(),
            r is Err <==> expr_fault(e.node(), old(self).scope(), signatures(old(self).module.functions@)) is Some,
            r matches Err(x) ==> expr_fault(e.node(), old(self).scope(), signatures(old(self).module.functions@))
                == Some(x.fault()),
            r is Ok ==> lower(e.node(), old(self).low(), signatures(old(self).module.functions@)) == (
                final(self).low(),
                r->Ok_0,
            ),
        decreases e, 0nat,
    {
        match e {
            Expr::ForInExpr(x, start, cond, step, body) => {
                let slot = self.new_slot(x);
                let ghost s0 = *self;
                let start_value = match self.compile_expr(start) {
                    Ok(v) => v,
                    Err(err) => {
                        return Err(err);
                    },
                };
                let ghost s1 = *self;
                self.emit(Inst::Store(slot, start_value));
                proof {
                    lemma_grows_trans(s0, s1, *self);
                }
                let ghost s2 = *self;
                let loop_block = self.new_block("loop");
                let ghost b2 = self.low();
                self.emit(Inst::Branch(loop_block));
                let ghost a2 = self.low();
                self.current = loop_block;
                proof {
                    lemma_fresh_block(self.body.code@, loop_block as int);
                }
                let ghost s3 = *self;
                self.variables.push((x.clone(), slot));
                proof {
                    assert(self.scope() =~= old(self).scope().push(x@));
                    assert(self.variables@ == old(self).variables@.push((*x, slot)));
                    lemma_grows_refl(*self);
                }
                let ghost s3b = *self;
                let body_result = self.compile_expr(body);
                if let Err(err) = body_result {
                    self.variables.pop();
                    proof {
                        assert(self.variables@ =~= old(self).variables@);
                    }
                    return Err(err);
                }
                let ghost s4 = *self;
                let step_value = match self.compile_expr(step) {
                    Ok(v) => v,
                    Err(err) => {
                        self.variables.pop();
                        proof {
                            assert(self.variables@ =~= old(self).variables@);
                        }
                        return Err(err);
                    },
                };
                proof {
                    lemma_grows_trans(s3b, s4, *self);
                }
                let ghost s5 = *self;
                let current_value = self.emit(Inst::Load(slot));
                proof {
                    lemma_grows_trans(s3b, s5, *self);
                }
                let ghost s6 = *self;
                let next_value = self.emit(Inst::Binary(Op::Plus, current_value, step_value));
                proof {
                    lemma_grows_trans(s3b, s6, *self);
                }
                let ghost s7 = *self;
                self.emit(Inst::Store(slot, next_value));
                proof {
                    lemma_grows_trans(s3b, s7, *self);
                }
                let ghost s8 = *self;
                let cond_value = match self.compile_expr(cond) {
                    Ok(v) => v,
                    Err(err) => {
                        self.variables.pop();
                        proof {
                            assert(self.variables@ =~= old(self).variables@);
                        }
                        return Err(err);
                    },
                };
                proof {
                    lemma_grows_trans(s3b, s8, *self);
                }
                let ghost s9 = *self;
                let after_block = self.new_block("afterloop");
                let ghost b9 = self.low();
                self.emit(Inst::CondBranch(cond_value, loop_block, after_block));
                let ghost a9 = self.low();
                self.current = after_block;
                proof {
                    lemma_fresh_block(self.body.code@, after_block as int);
                }
                self.variables.pop();
                proof {
                    assert(self.variables@ =~= old(self).variables@);
                    let n0 = s0.body.blocks@.len() as int;
                    let n2 = s2.body.blocks@.len() as int;
                    let n9 = s9.body.blocks@.len() as int;
                    assert(s3b.current == loop_block);
                    assert(closed(s3.body.code@, s2.current as int));
                    assert(closed(self.body.code@, s9.current as int));
                    assert forall|k: int|
                        n0 <= k < self.body.blocks@.len() && k != self.current implies #[trigger] closed(
                        self.body.code@,
                        k,
                    ) by {
                        if k < n2 {
                            if k != s2.current {
                                assert(closed(s2.body.code@, k));
                            }
                            assert(closed(s3.body.code@, k));
                            assert(closed(s9.body.code@, k));
                        } else if k < n9 {
                            if k == loop_block {
                                if s9.current != loop_block {
                                    assert(closed(s9.body.code@, k));
                                }
                            } else if k != s9.current {
                                assert(closed(s9.body.code@, k));
                            }
                        }
                    }
                    if s2.current != s0.current {
                        assert(closed(s2.body.code@, s0.current as int));
                    }
                    assert(closed(s3.body.code@, s0.current as int));
                    assert(closed(s9.body.code@, s0.current as int));
                    assert forall|k: int|
                        0 <= k < n0 && k != s0.current implies (closed(s0.body.code@, k) ==> #[trigger] closed(
                        self.body.code@,
                        k,
                    )) && (no_terminator(s0.body.code@, k) ==> no_terminator(self.body.code@, k)) by {
                        if closed(s0.body.code@, k) {
                            assert(closed(s2.body.code@, k));
                            assert(closed(s3.body.code@, k));
                            assert(closed(s9.body.code@, k));
                        }
                        if no_terminator(s0.body.code@, k) {
                            assert(no_terminator(s2.body.code@, k));
                            assert(no_terminator(s3.body.code@, k));
                            assert(no_terminator(s9.body.code@, k));
                        }
                    }
                }
                let z = Number { negative: false, digits: Vec::new(), exponent: 0 };
                proof {
                    assert(z@.digits =~= zero().digits);
                }
                let ghost a10 = self.low();
                let k = self.add_const(z);
                proof {
                    let sg = signatures(s0.module.functions@);
                    let st = old(self).low();
                    let slot_ = st.slots as usize;
                    assert(slot == slot_);
                    assert(s0.low() == (Low { slots: st.slots + 1, ..st }));
                    let (l1, av) = lower(start.node(), Low { slots: st.slots + 1, ..st }, sg);
                    assert(l1 == s1.low() && av == start_value);
                    let l2 = emit_low(l1, InstV::Store(slot_, av)).0;
                    assert(l2 == s2.low());
                    let lb = l2.blocks as usize;
                    assert(b2 == (Low { blocks: l2.blocks + 1, ..l2 }));
                    let l3 = emit_low(Low { blocks: l2.blocks + 1, ..l2 }, InstV::Branch(lb)).0;
                    assert(a2 == l3);
                    assert(vars_view(s3b.variables@) =~= l3.vars.push((x@, slot_)));
                    assert(s3b.low() == (Low { current: lb, vars: l3.vars.push((x@, slot_)), ..l3 }));
                    let l4 = lower(body.node(), Low { current: lb, vars: l3.vars.push((x@, slot_)), ..l3 }, sg).0;
                    assert(l4 == s4.low());
                    let (l5, sv) = lower(step.node(), l4, sg);
                    assert(l5 == s5.low() && sv == step_value);
                    let (l6, cur) = emit_low(l5, InstV::Load(slot_));
                    assert(l6 == s6.low() && cur == current_value);
                    let (l7, nx) = emit_low(l6, InstV::Binary(Op::Plus, cur, sv));
                    assert(l7 == s7.low() && nx == next_value);
                    let l8 = emit_low(l7, InstV::Store(slot_, nx)).0;
                    assert(l8 == s8.low());
                    let (l9, cv) = lower(cond.node(), l8, sg);
                    assert(l9 == s9.low() && cv == cond_value);
                    let ab = l9.blocks as usize;
                    assert(b9 == (Low { blocks: l9.blocks + 1, ..l9 }));
                    let l10 = emit_low(Low { blocks: l9.blocks + 1, ..l9 }, InstV::CondBranch(cv, lb, ab)).0;
                    assert(a9 == l10);
                    assert(a10 == (Low { current: ab, vars: st.vars, ..l10 }));
                    assert(lower(e.node(), st, sg) == (self.low(), Value::Const(k)));
                }
                Ok(Value::Const(k))
            },
            _ => Err(CodegenError::UnsupportedExpression),
        }
    }

    fn copy_names(names: &Vec<String>) -> (r: Vec<String>)
        ensures
            r@ == names@,
    {
        let mut r: Vec<String> = Vec::new();
        let mut k: usize = 0;
        while k < names.len()
            invariant
                k <= names@.len(),
                r@ == names@.subrange(0, k as int),
            decreases names@.len() - k,
        {
            r.push(names[k].clone());
            proof {
                assert(r@ =~= names@.subrange(0, k + 1));
            }
            k = k + 1;
        }
        proof {
            assert(r@ =~= names@);
        }
        r
    }

    /// Adds a declaration of `name` with `params` to the module.
    pub fn compile_prototype(&mut self, name: &String, params: &Vec<Name>) -> (r: usize)
        requires
            old(self).wf(),
        ensures
            final(self).wf(),
            final(self).module.functions@.drop_last() == old(self).module.functions@,
            final(self).module.functions@.len() == old(self).module.functions@.len() + 1,
            final(self).module.functions@.last().name@ == name@,
            final(self).module.functions@.last().params@ == params@,
            final(self).module.functions@.last().body is None,
            signatures(final(self).module.functions@) == signatures(old(self).module.functions@).push(
                (name@, params@.len()),
            ),
            r == old(self).module.functions@.len(),
    {
        let ps = Self::copy_names(params);
        let n = self.module.functions.len();
        self.module.functions.push(Function { name: name.clone(), params: ps, body: None });
        proof {
            assert(self.module.functions@.drop_last() =~= old(self).module.functions@);
            assert(signatures(self.module.functions@) =~= signatures(old(self).module.functions@).push(
                (name@, params@.len()),
            ));
        }
        n
    }

    /// Compiles the definition of `name` with `params` and `body` into the
    /// module, where it is visible to its own body. The scope table starts
    /// afresh with the parameters alone, each stored into a slot of its own.
    ///
    /// The body's fault, if any, is the error; the function is then not added.
    /// The lowered body is checked for well-formedness before it is added (a
    /// failed check would give `InvalidGeneratedFunction`); lowering always
    /// produces well-formed bodies, so the check passes.
    pub fn compile_fn(&mut self, name: &String, params: &Vec<Name>, body: &Expr) -> (r: Result<(), CodegenError>)
        requires
            old(self).wf(),
        ensures
            final(self).wf(),
            ({
                let sigs = signatures(old(self).module.functions@).push((name@, params@.len()));
                let fault = expr_fault(body.node(), names_view(*params), sigs);
                &&& fault is Some <==> r is Err
                &&& r matches Err(x) ==> fault == Some(x.fault())
                &&& r is Err ==> final(self).module.functions@ == old(self).module.functions@
                &&& r is Ok ==> (final(self).module.functions@.len() == old(self).module.functions@.len() + 1
                    && final(self).module.functions@.drop_last() == old(self).module.functions@
                    && final(self).module.functions@.last().name@ == name@
                    && final(self).module.functions@.last().params@ == params@)
                &&& r is Ok ==> (final(self).module.functions@.last().body matches Some(b)
                    && body_well_formed(b.code@, b.blocks@.len()) && body_is(
                    b,
                    lowered_fn(names_view(*params), body.node(), sigs),
                ))
            }),
    {
        let ghost old_functions = self.module.functions@;
        self.compile_prototype(name, params);
        let ghost sigs = signatures(self.module.functions@);
        let mut blocks: Vec<String> = Vec::new();
        blocks.push("entry".to_owned());
        self.body = Body { slots: Vec::new(), blocks, code: Vec::new(), consts: Vec::new() };
        self.current = 0;
        self.variables = Vec::new();
        proof {
            assert(vars_view(self.variables@) =~= seq![]);
            assert(code_view(self.body.code@) =~= seq![]);
            assert(consts_view(self.body.consts@) =~= seq![]);
            assert(self.low() == entry_state());
        }
        let mut k: usize = 0;
        while k < params.len()
            invariant
                self.wf(),
                k <= params@.len(),
                self.module.functions@.drop_last() == old_functions,
                self.module.functions@.len() == old_functions.len() + 1,
                sigs == signatures(self.module.functions@),
                sigs == signatures(old_functions).push((name@, params@.len())),
                self.scope() == names_view(*params).subrange(0, k as int),
                self.current == 0,
                self.body.blocks@.len() == 1,
                no_terminator(self.body.code@, 0),
                prologue(names_view(*params), k as int, self.low()) == prologue(
                    names_view(*params),
                    0,
                    entry_state(),
                ),
            decreases params@.len() - k,
        {
            let ghost l0 = self.low();
            let slot = self.new_slot(&params[k]);
            self.emit(Inst::Store(slot, Value::Param(k)));
            let ghost pre = self.variables@;
            let binding = (params[k].clone(), slot);
            self.variables.push(binding);
            proof {
                assert(names_view(*params)[k as int] == params@[k as int]@);
                assert(vars_view(self.variables@) =~= vars_view(pre).push((names_view(*params)[k as int], slot)));
                assert(self.low() == (Low {
                    slots: l0.slots + 1,
                    code: l0.code.push((l0.current, InstV::Store(slot, Value::Param(k)))),
                    vars: l0.vars.push((names_view(*params)[k as int], slot)),
                    ..l0
                }));
                assert(scope_names(pre.push(binding)) =~= scope_names(pre).push(binding.0@));
                assert(self.scope() =~= names_view(*params).subrange(0, k + 1));
            }
            k = k + 1;
        }
        proof {
            assert(self.scope() =~= names_view(*params));
        }
        let ghost start = *self;
        let value = match self.compile_expr(body) {
            Ok(v) => v,
            Err(x) => {
                self.module.functions.pop();
                proof {
                    assert(self.module.functions@ =~= old_functions);
                }
                return Err(x);
            },
        };
        let ghost lowered = *self;
        self.emit(Inst::Return(value));
        let ghost finished = self.low();
        proof {
            assert(finished == lowered_fn(names_view(*params), body.node(), sigs));
        }
        proof {
            let nb = self.body.blocks@.len() as int;
            assert forall|b: int| 0 <= b < nb implies #[trigger] closed(self.body.code@, b) by {
                if b != lowered.current {
                    if b == 0 {
                        assert(closed(lowered.body.code@, 0));
                    } else {
                        assert(closed(lowered.body.code@, b));
                    }
                }
            }
            lemma_all_closed(self.body.code@, nb as nat);
        }
        self.module.functions.pop();
        proof {
            assert(self.module.functions@ =~= old_functions);
        }
        if check_body(&self.body.code, self.body.blocks.len()) {
            let mut blocks: Vec<String> = Vec::new();
            blocks.push("entry".to_owned());
            let mut done = Body { slots: Vec::new(), blocks, code: Vec::new(), consts: Vec::new() };
            std::mem::swap(&mut self.body, &mut done);
            proof {
                assert(body_is(done, finished));
            }
            self.current = 0;
            self.variables = Vec::new();
            let ps = Self::copy_names(params);
            self.module.functions.push(Function { name: name.clone(), params: ps, body: Some(done) });
            proof {
                assert(self.module.functions@.drop_last() =~= old_functions);
            }
            Ok(())
        } else {
            Err(CodegenError::InvalidGeneratedFunction(name.clone()))
        }
    }

    /// Compiles the top-level entries of a program in order: a function
    /// definition is compiled, an extern declaration is added as a declaration,
    /// and anything else stops the compilation.
    ///
    /// It fails exactly where `program_fault` finds a fault, with that fault.
    pub fn compile_program(&mut self, exprs: &Program) -> (r: Result<(), CodegenError>)
        requires
            old(self).wf(),
        ensures
            final(self).wf(),
            ({
                let fault = program_fault(nodes(exprs@), 0, signatures(old(self).module.functions@));
                &&& fault is Some <==> r is Err
                &&& r matches Err(x) ==> fault == Some(x.fault())
                &&& r is Ok ==> fault is None && final(self).module.functions@.len()
                    == old(self).module.functions@.len() + exprs@.len()
            }),
            ({
                let ds = nodes(exprs@);
                let sigs = signatures(old(self).module.functions@);
                let n0 = old(self).module.functions@.len() as int;
                let fs = final(self).module.functions@;
                let n = fs.len() - n0;
                &&& 0 <= n <= ds.len()
                &&& fs.subrange(0, n0) == old(self).module.functions@
                &&& forall|k: int| 0 <= k < n ==> entry_compiled(#[trigger] fs[n0 + k], ds[k], sigs_upto(ds, k, sigs))
                &&& r is Ok <==> n == ds.len()
                &&& r matches Err(x) ==> entry_fault(ds[n], sigs_upto(ds, n, sigs)) == Some(x.fault())
            }),
    {
        let ghost ds = nodes(exprs@);
        let mut k: usize = 0;
        while k < exprs.len()
            invariant
                self.wf(),
                k <= exprs@.len(),
                ds == nodes(exprs@),
                self.module.functions@.len() == old(self).module.functions@.len() + k,
                program_fault(ds, k as int, signatures(self.module.functions@)) == program_fault(
                    ds,
                    0,
                    signatures(old(self).module.functions@),
                ),
                signatures(self.module.functions@) == sigs_upto(ds, k as int, signatures(old(self).module.functions@)),
                self.module.functions@.subrange(0, old(self).module.functions@.len() as int) == old(self).module.functions@,
                forall|j: int|
                    0 <= j < k ==> entry_compiled(
                        #[trigger] self.module.functions@[old(self).module.functions@.len() + j],
                        ds[j],
                        sigs_upto(ds, j, signatures(old(self).module.functions@)),
                    ),
            decreases exprs@.len() - k,
        {
            let ghost before = self.module.functions@;
            let ghost n0 = old(self).module.functions@.len() as int;
            let ghost sigs0 = signatures(old(self).module.functions@);
            proof {
                assert(ds[k as int] == exprs@[k as int].node());
            }
            match &exprs[k] {
                Expr::Function(name, params, body) => {
                    match self.compile_fn(name, params, body) {
                        Ok(()) => {
                            proof {
                                assert(signatures(self.module.functions@) =~= signatures(before).push(
                                    (name@, params@.len()),
                                ));
                                let fs = self.module.functions@;
                                assert(names_view(fs.last().params) =~= names_view(*params));
                                assert(fs[n0 + k] == fs.last());
                                assert(entry_compiled(fs[n0 + k], ds[k as int], sigs_upto(ds, k as int, sigs0)));
                                assert forall|j: int| 0 <= j < k + 1 implies entry_compiled(
                                    #[trigger] fs[n0 + j],
                                    ds[j],
                                    sigs_upto(ds, j, sigs0),
                                ) by {
                                    if j < k {
                                        assert(fs[n0 + j] == before[n0 + j]);
                                    }
                                }
                                assert(fs.subrange(0, n0) =~= before.subrange(0, n0));
                            }
                        },
                        Err(x) => {
                            return Err(x);
                        },
                    }
                },
                Expr::Extern(name, params) => {
                    self.compile_prototype(name, params);
                    proof {
                        assert(signatures(self.module.functions@) =~= signatures(before).push(
                            (name@, params@.len()),
                        ));
                        let fs = self.module.functions@;
                        assert(names_view(fs.last().params) =~= names_view(*params));
                        assert(fs[n0 + k] == fs.last());
                        assert(entry_compiled(fs[n0 + k], ds[k as int], sigs_upto(ds, k as int, sigs0)));
                        assert forall|j: int| 0 <= j < k + 1 implies entry_compiled(
                            #[trigger] fs[n0 + j],
                            ds[j],
                            sigs_upto(ds, j, sigs0),
                        ) by {
                            if j < k {
                                assert(fs[n0 + j] == before[n0 + j]);
                            }
                        }
                        assert(fs.subrange(0, n0) =~= before.subrange(0, n0));
                    }
                },
                _ => {
                    return Err(CodegenError::TopLevelFormNotAllowed);
                },
            }
            k = k + 1;
        }
        Ok(())
    }
}

} // verus!
