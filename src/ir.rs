//! The lowered form of a program: a module of functions whose bodies are
//! control-flow graphs of basic blocks over float values held in stack slots.
//!
//! A body is kept as the sequence of instructions in the order they were
//! emitted, each tagged with its block; the instructions of one block are
//! those tagged with it, in that order. The value an instruction defines is
//! named by its index in that sequence.
use vstd::prelude::*;
use crate::ast::{Number, NumberV, Op};

verus! {

/// An operand.
#[derive(Clone, Copy, Debug, PartialEq, Eq)]
pub enum Value {
    /// The constant with this index in the body's constant table.
    Const(usize),
    /// The incoming value of the parameter with this index.
    Param(usize),
    /// The value defined by the instruction with this index.
    Reg(usize),
}

/// An instruction. Every value is a 64-bit float.
#[derive(Debug, PartialEq)]
pub enum Inst {
    /// Reads the slot with this index.
    Load(usize),
    /// Writes the value into the slot.
    Store(usize, Value),
    /// Applies the operator; a comparison gives 1.0 when it holds, else 0.0.
    Binary(Op, Value, Value),
    /// Calls the function with this index in the module.
    Call(usize, Vec<Value>),
    /// The first value of the pair whose block control came from.
    Phi(Vec<(Value, usize)>),
    /// Jumps to the block.
    Branch(usize),
    /// Jumps to the first block when the value is not 0.0, else to the second.
    CondBranch(Value, usize, usize),
    /// Returns the value.
    Return(Value),
}

/// The model of an `Inst`.
pub enum InstV {
    Load(usize),
    Store(usize, Value),
    Binary(Op, Value, Value),
    Call(usize, Seq<Value>),
    Phi(Seq<(Value, usize)>),
    Branch(usize),
    CondBranch(Value, usize, usize),
    Return(Value),
}

impl View for Inst {
    type V = InstV;

    open spec fn view(&self) -> InstV {
        match self {
            Inst::Load(s) => InstV::Load(*s),
            Inst::Store(s, v) => InstV::Store(*s, *v),
            Inst::Binary(op, l, r) => InstV::Binary(*op, *l, *r),
            Inst::Call(f, vs) => InstV::Call(*f, vs@),
            Inst::Phi(inc) => InstV::Phi(inc@),
            Inst::Branch(b) => InstV::Branch(*b),
            Inst::CondBranch(c, t, e) => InstV::CondBranch(*c, *t, *e),
            Inst::Return(v) => InstV::Return(*v),
        }
    }
}

/// The models of a body's instructions, each with its block.
pub open spec fn code_view(code: Seq<(usize, Inst)>) -> Seq<(usize, InstV)> {
    code.map_values(|e: (usize, Inst)| (e.0, e.1@))
}

/// The models of a constant table.
pub open spec fn consts_view(cs: Seq<Number>) -> Seq<NumberV> {
    cs.map_values(|n: Number| n@)
}

impl Inst {
    pub open spec fn is_terminator(&self) -> bool {
        match self {
            Inst::Branch(_) | Inst::CondBranch(..) | Inst::Return(_) => true,
            _ => false,
        }
    }
}

impl Inst {
    pub fn terminates(&self) -> (r: bool)
        ensures
            r == self.is_terminator(),
    {
        match self {
            Inst::Branch(_) | Inst::CondBranch(..) | Inst::Return(_) => true,
            _ => false,
        }
    }
}

/// A body is well formed when every instruction belongs to an existing block,
/// and every block ends with its one terminator.
pub open spec fn body_well_formed(code: Seq<(usize, Inst)>, nblocks: nat) -> bool {
    &&& forall|i: int| 0 <= i < code.len() ==> (#[trigger] code[i]).0 < nblocks
    &&& forall|i: int, j: int|
        0 <= i < j < code.len() && (#[trigger] code[i]).0 == (#[trigger] code[j]).0
            ==> !code[i].1.is_terminator()
    &&& forall|b: int| 0 <= b < nblocks ==> #[trigger] has_terminator(code, b, code.len() as int)
}

/// Some instruction of block `b` among the first `n` is a terminator.
pub open spec fn has_terminator(code: Seq<(usize, Inst)>, b: int, n: int) -> bool {
    exists|i: int| 0 <= i < n && (#[trigger] code[i]).0 == b && code[i].1.is_terminator()
}

/// No instruction of block `b` is a terminator.
pub open spec fn no_terminator(code: Seq<(usize, Inst)>, b: int) -> bool {
    forall|i: int| 0 <= i < code.len() && (#[trigger] code[i]).0 == b ==> !code[i].1.is_terminator()
}

/// Block `b` ends with its one terminator.
pub open spec fn closed(code: Seq<(usize, Inst)>, b: int) -> bool {
    &&& has_terminator(code, b, code.len() as int)
    &&& forall|i: int, j: int|
        0 <= i < j < code.len() && (#[trigger] code[i]).0 == b && (#[trigger] code[j]).0 == b
            ==> !code[i].1.is_terminator()
}

pub proof fn lemma_push_other(code: Seq<(usize, Inst)>, e: (usize, Inst), b: int)
    requires
        e.0 != b,
    ensures
        closed(code, b) ==> closed(code.push(e), b),
        no_terminator(code, b) ==> no_terminator(code.push(e), b),
{
    let c = code.push(e);
    if closed(code, b) {
        let k = choose|k: int| 0 <= k < code.len() && (#[trigger] code[k]).0 == b && code[k].1.is_terminator();
        assert(c[k] == code[k]);
        assert(has_terminator(c, b, c.len() as int));
        assert forall|i: int, j: int|
            0 <= i < j < c.len() && (#[trigger] c[i]).0 == b && (#[trigger] c[j]).0 == b implies !c[i].1.is_terminator() by {
            assert(c[i] == code[i]);
            assert(c[j] == code[j]);
        }
    }
    if no_terminator(code, b) {
        assert forall|i: int| 0 <= i < c.len() && (#[trigger] c[i]).0 == b implies !c[i].1.is_terminator() by {
            assert(c[i] == code[i]);
        }
    }
}

pub proof fn lemma_push_plain(code: Seq<(usize, Inst)>, b: usize, inst: Inst)
    requires
        !inst.is_terminator(),
        no_terminator(code, b as int),
    ensures
        no_terminator(code.push((b, inst)), b as int),
{
    let c = code.push((b, inst));
    assert forall|i: int| 0 <= i < c.len() && (#[trigger] c[i]).0 == b implies !c[i].1.is_terminator() by {
        if i < code.len() {
            assert(c[i] == code[i]);
        }
    }
}

pub proof fn lemma_push_terminator(code: Seq<(usize, Inst)>, b: usize, inst: Inst)
    requires
        inst.is_terminator(),
        no_terminator(code, b as int),
    ensures
        closed(code.push((b, inst)), b as int),
{
    let c = code.push((b, inst));
    assert(c[code.len() as int] == (b, inst));
    assert(has_terminator(c, b as int, c.len() as int));
    assert forall|i: int, j: int|
        0 <= i < j < c.len() && (#[trigger] c[i]).0 == b && (#[trigger] c[j]).0 == b implies !c[i].1.is_terminator() by {
        assert(c[i] == code[i]);
    }
}

pub proof fn lemma_fresh_block(code: Seq<(usize, Inst)>, b: int)
    requires
        forall|i: int| 0 <= i < code.len() ==> (#[trigger] code[i]).0 < b,
    ensures
        no_terminator(code, b),
{
}

pub proof fn lemma_all_closed(code: Seq<(usize, Inst)>, nblocks: nat)
    requires
        forall|i: int| 0 <= i < code.len() ==> (#[trigger] code[i]).0 < nblocks,
        forall|b: int| 0 <= b < nblocks ==> #[trigger] closed(code, b),
    ensures
        body_well_formed(code, nblocks),
{
    assert forall|b: int| 0 <= b < nblocks implies #[trigger] has_terminator(code, b, code.len() as int) by {
        assert(closed(code, b));
    }
    assert forall|i: int, j: int|
        0 <= i < j < code.len() && (#[trigger] code[i]).0 == (#[trigger] code[j]).0 implies !code[i].1.is_terminator() by {
        assert(closed(code, code[i].0 as int));
    }
}

/// Whether a body is well formed.
pub fn check_body(code: &Vec<(usize, Inst)>, nblocks: usize) -> (r: bool)
    ensures
        r == body_well_formed(code@, nblocks as nat),
{
    let mut closed: Vec<bool> = Vec::new();
    let mut b: usize = 0;
    while b < nblocks
        invariant
            b <= nblocks,
            closed@.len() == b,
            forall|c: int| 0 <= c < b ==> !closed@[c],
        decreases nblocks - b,
    {
        closed.push(false);
        b = b + 1;
    }
    let mut i: usize = 0;
    while i < code.len()
        invariant
            i <= code@.len(),
            closed@.len() == nblocks,
            forall|k: int| 0 <= k < i ==> (#[trigger] code@[k]).0 < nblocks,
            forall|k: int, m: int|
                0 <= k < m < i && (#[trigger] code@[k]).0 == (#[trigger] code@[m]).0
                    ==> !code@[k].1.is_terminator(),
            forall|c: int| 0 <= c < nblocks ==> (closed@[c] <==> #[trigger] has_terminator(code@, c, i as int)),
        decreases code@.len() - i,
    {
        let blk = code[i].0;
        if blk >= nblocks {
            return false;
        }
        if closed[blk] {
            proof {
                assert(has_terminator(code@, blk as int, i as int));
                let k = choose|k: int|
                    0 <= k < i && (#[trigger] code@[k]).0 == blk && code@[k].1.is_terminator();
                assert(code@[k].0 == code@[i as int].0);
            }
            return false;
        }
        proof {
            assert(!has_terminator(code@, blk as int, i as int));
            assert forall|k: int, m: int|
                0 <= k < m < i + 1 && (#[trigger] code@[k]).0 == (#[trigger] code@[m]).0 implies !code@[k].1.is_terminator() by {
                if m == i {
                    assert(code@[k].0 == blk);
                }
            }
        }
        if code[i].1.terminates() {
            closed.set(blk, true);
        }
        proof {
            assert forall|c: int| 0 <= c < nblocks implies (closed@[c] <==> #[trigger] has_terminator(
                code@,
                c,
                i + 1,
            )) by {
                if c == blk && code@[i as int].1.is_terminator() {
                    assert(code@[i as int].0 == c);
                }
                if has_terminator(code@, c, i + 1) {
                    let k = choose|k: int|
                        0 <= k < i + 1 && (#[trigger] code@[k]).0 == c && code@[k].1.is_terminator();
                    if k < i {
                        assert(has_terminator(code@, c, i as int));
                    } else {
                        assert(c == blk);
                    }
                }
                if has_terminator(code@, c, i as int) {
                    let k = choose|k: int|
                        0 <= k < i && (#[trigger] code@[k]).0 == c && code@[k].1.is_terminator();
                    assert(0 <= k < i + 1);
                }
            }
        }
        i = i + 1;
    }
    let mut c: usize = 0;
    while c < nblocks
        invariant
            c <= nblocks,
            closed@.len() == nblocks,
            forall|d: int| 0 <= d < c ==> closed@[d],
            forall|k: int| 0 <= k < code@.len() ==> (#[trigger] code@[k]).0 < nblocks,
            forall|k: int, m: int|
                0 <= k < m < code@.len() && (#[trigger] code@[k]).0 == (#[trigger] code@[m]).0
                    ==> !code@[k].1.is_terminator(),
            forall|d: int|
                0 <= d < nblocks ==> (closed@[d] <==> #[trigger] has_terminator(code@, d, code@.len() as int)),
        decreases nblocks - c,
    {
        if !closed[c] {
            proof {
                assert(!has_terminator(code@, c as int, code@.len() as int));
            }
            return false;
        }
        c = c + 1;
    }
    true
}

/// The body of a defined function.
#[derive(Debug)]
pub struct Body {
    /// The names of the stack slots; the first ones hold the parameters.
    pub slots: Vec<String>,
    /// The names of the blocks; the first is the entry block.
    pub blocks: Vec<String>,
    /// The instructions in emission order, each with the index of its block.
    pub code: Vec<(usize, Inst)>,
    /// The constants that the instructions use.
    pub consts: Vec<Number>,
}

/// A function of the module: its name, its parameters, and its body unless it
/// is only declared.
#[derive(Debug)]
pub struct Function {
    pub name: String,
    pub params: Vec<String>,
    pub body: Option<Body>,
}

/// The functions compiled so far, in order.
#[derive(Debug)]
pub struct Module {
    pub functions: Vec<Function>,
}

/// The name and arity of each function of a module.
pub open spec fn signatures(fs: Seq<Function>) -> Seq<(Seq<char>, nat)> {
    fs.map_values(|f: Function| (f.name@, f.params@.len()))
}

/// The index of the first function called `name` at or after index `k`.
pub open spec fn find_function(sigs: Seq<(Seq<char>, nat)>, name: Seq<char>, k: int) -> Option<int>
    decreases sigs.len() - k,
{
    if k < 0 || k >= sigs.len() {
        None
    } else if sigs[k].0 == name {
        Some(k)
    } else {
        find_function(sigs, name, k + 1)
    }
}

} // verus!
