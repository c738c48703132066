use kaleidoscope::ast::{Number, Op};
use kaleidoscope::codegen::{CodeGen, CodegenError};
use kaleidoscope::ir::{check_body, Function, Inst, Module, Value};
use kaleidoscope::parser::parse_program;

fn number_value(n: &Number) -> f64 {
    let text = format!(
        "{}{}e{}",
        if n.negative { "-" } else { "" },
        if n.digits.is_empty() { "0".to_string() } else { String::from_utf8_lossy(&n.digits).into_owned() },
        n.exponent
    );
    text.parse::<f64>().unwrap()
}

/// Runs a lowered function on the given arguments; extern calls are
/// answered by returning their first argument and recorded in `trace`.
fn run(module: &Module, f: usize, args: &[f64], trace: &mut Vec<(String, f64)>) -> f64 {
    let func: &Function = &module.functions[f];
    let body = func.body.as_ref().expect("a defined function");
    let mut slots = vec![0.0f64; body.slots.len()];
    let mut regs = vec![0.0f64; body.code.len()];
    let mut block = 0usize;
    let mut previous = usize::MAX;
    let mut steps = 0usize;
    loop {
        let indices: Vec<usize> = (0..body.code.len()).filter(|&i| body.code[i].0 == block).collect();
        let mut next = None;
        for i in indices {
            steps += 1;
            assert!(steps < 100_000, "runaway evaluation");
            let val = |v: &Value, regs: &Vec<f64>| match v {
                Value::Const(k) => number_value(&body.consts[*k]),
                Value::Param(p) => args[*p],
                Value::Reg(r) => regs[*r],
            };
            match &body.code[i].1 {
                Inst::Load(s) => regs[i] = slots[*s],
                Inst::Store(s, v) => slots[*s] = val(v, &regs),
                Inst::Binary(op, l, r) => {
                    let (a, b) = (val(l, &regs), val(r, &regs));
                    regs[i] = match op {
                        Op::Plus => a + b,
                        Op::Minus => a - b,
                        Op::Multiply => a * b,
                        Op::Divide => a / b,
                        Op::LessThan => (a < b) as u8 as f64,
                        Op::GreaterThan => (a > b) as u8 as f64,
                        _ => panic!("no lowering for this operator"),
                    }
                }
                Inst::Call(callee, vs) => {
                    let actual: Vec<f64> = vs.iter().map(|v| val(v, &regs)).collect();
                    let target = &module.functions[*callee];
                    regs[i] = if target.body.is_some() {
                        run(module, *callee, &actual, trace)
                    } else {
                        trace.push((target.name.clone(), actual[0]));
                        actual[0]
                    };
                }
                Inst::Phi(incoming) => {
                    let (v, _) = incoming.iter().find(|(_, b)| *b == previous).expect("a predecessor");
                    regs[i] = val(v, &regs);
                }
                Inst::Branch(b) => next = Some(*b),
                Inst::CondBranch(c, t, e) => next = Some(if val(c, &regs) != 0.0 { *t } else { *e }),
                Inst::Return(v) => return val(v, &regs),
            }
        }
        previous = block;
        block = next.expect("a terminated block");
    }
}

fn compile(text: &str) -> Result<CodeGen, CodegenError> {
    let program = parse_program(text).expect("the program parses");
    let mut codegen = CodeGen::mk_compiler();
    codegen.compile_program(&program)?;
    Ok(codegen)
}

fn index_of(module: &Module, name: &str) -> usize {
    module.functions.iter().position(|f| f.name == name).expect("the function exists")
}

fn run_main(text: &str) -> (f64, Vec<(String, f64)>) {
    let codegen = compile(text).expect("the program compiles");
    let mut trace = Vec::new();
    let main = index_of(&codegen.module, "main");
    let r = run(&codegen.module, main, &[], &mut trace);
    (r, trace)
}

#[test]
fn main_evaluates_arithmetic() {
    assert_eq!(run_main("def main() 1 + 2 * 3").0, 7.0);
}

#[test]
fn conditional_selects_by_nonzero_condition() {
    assert_eq!(run_main("def main() if 0 then 1 else 2").0, 2.0);
    assert_eq!(run_main("def main() if 1 then 1 else 2").0, 1.0);
}

#[test]
fn loop_runs_while_condition_holds_after_step() {
    let (r, trace) = run_main("extern printd(x); def main() for i = 1, i < 4, 1 in printd(i)");
    assert_eq!(r, 0.0);
    let printed: Vec<f64> = trace.iter().map(|t| t.1).collect();
    assert_eq!(printed, vec![1.0, 2.0, 3.0]);
}

#[test]
fn loop_variable_does_not_disturb_outer_binding() {
    let codegen = compile("extern printd(x); def f(x) (for x = 10, x < 12, 1 in printd(x)) : x").unwrap();
    let mut trace = Vec::new();
    let f = index_of(&codegen.module, "f");
    assert_eq!(run(&codegen.module, f, &[5.0], &mut trace), 5.0);
    assert_eq!(trace.iter().map(|t| t.1).collect::<Vec<f64>>(), vec![10.0, 11.0]);
    assert!(codegen.variables.is_empty());
}

#[test]
fn functions_call_each_other_and_themselves() {
    let text = "def fib(n) if n < 3 then 1 else fib(n - 1) + fib(n - 2); def main() fib(10)";
    assert_eq!(run_main(text).0, 55.0);
}

#[test]
fn comparisons_are_numbers() {
    assert_eq!(run_main("def main() (2 > 1) + (1 < 2) + (3 < 1)").0, 2.0);
}

#[test]
fn literal_with_exponent_and_sign() {
    assert_eq!(run_main("def main() 2.5e1 + -5").0, 20.0);
}

#[test]
fn undefined_variable_is_reported() {
    assert_eq!(compile("def main() y").err(), Some(CodegenError::UndefinedVariable("y".to_string())));
}

#[test]
fn unknown_function_is_reported() {
    assert_eq!(compile("def main() g(1)").err(), Some(CodegenError::UnknownFunction("g".to_string())));
}

#[test]
fn wrong_argument_count_is_an_invalid_call() {
    assert_eq!(
        compile("def f(a b) a; def main() f(1)").err(),
        Some(CodegenError::InvalidCall("f".to_string()))
    );
}

#[test]
fn bitwise_operator_is_unsupported() {
    assert_eq!(compile("def main() 1 | 2").err(), Some(CodegenError::UnsupportedExpression));
}

#[test]
fn bare_expression_at_top_level_is_refused() {
    assert_eq!(compile("1 + 2").err(), Some(CodegenError::TopLevelFormNotAllowed));
}

#[test]
fn failed_function_is_not_left_in_the_module() {
    let program = parse_program("def good(a) a; def bad() z").unwrap();
    let mut codegen = CodeGen::mk_compiler();
    assert!(codegen.compile_program(&program).is_err());
    assert_eq!(codegen.module.functions.len(), 1);
    assert_eq!(codegen.module.functions[0].name, "good");
}

#[test]
fn loop_variable_is_unbound_after_the_loop() {
    assert_eq!(
        compile("def main() (for i = 1, i < 2, 1 in i) : i").err(),
        Some(CodegenError::UndefinedVariable("i".to_string()))
    );
}

#[test]
fn lowered_bodies_are_well_formed() {
    let codegen = compile("def f(x) if x then (for i = 0, i < x, 1 in i) else x * 2").unwrap();
    let body = codegen.module.functions[0].body.as_ref().unwrap();
    assert!(check_body(&body.code, body.blocks.len()));
    assert_eq!(body.slots.len(), 2);
}

#[test]
fn malformed_body_is_detected() {
    let code = vec![(0usize, Inst::Load(0))];
    assert!(!check_body(&code, 1));
    let code = vec![(0usize, Inst::Return(Value::Param(0))), (0usize, Inst::Return(Value::Param(0)))];
    assert!(!check_body(&code, 1));
    let code = vec![(1usize, Inst::Return(Value::Param(0)))];
    assert!(!check_body(&code, 1));
}

#[test]
fn extern_declaration_adds_a_prototype() {
    let codegen = compile("extern putchard(c)").unwrap();
    assert_eq!(codegen.module.functions.len(), 1);
    assert_eq!(codegen.module.functions[0].params, vec!["c".to_string()]);
    assert!(codegen.module.functions[0].body.is_none());
}

#[test]
fn module_holds_main_without_parameters() {
    let codegen = compile("def main() 1 + 2 * 3").unwrap();
    assert_eq!(codegen.module.functions.len(), 1);
    assert_eq!(codegen.module.functions[0].name, "main");
    assert!(codegen.module.functions[0].params.is_empty());
}

#[test]
fn failing_entry_keeps_earlier_functions_and_adds_no_later_ones() {
    let program = parse_program("def a() 1; extern b(x); def c() q; def d() 2").unwrap();
    let mut codegen = CodeGen::mk_compiler();
    assert_eq!(codegen.compile_program(&program), Err(CodegenError::UndefinedVariable("q".to_string())));
    let names: Vec<&str> = codegen.module.functions.iter().map(|f| f.name.as_str()).collect();
    assert_eq!(names, vec!["a", "b"]);
}

#[test]
fn loop_variable_gets_a_fresh_slot() {
    let codegen = compile("def f(x) for x = 1, x < 2, 1 in x").unwrap();
    let body = codegen.module.functions[0].body.as_ref().unwrap();
    assert_eq!(body.slots.len(), 2);
    let stores: Vec<usize> = body
        .code
        .iter()
        .filter_map(|(_, i)| if let Inst::Store(s, _) = i { Some(*s) } else { None })
        .collect();
    assert_eq!(stores, vec![0, 1, 1]);
}

#[test]
fn long_literal_evaluates() {
    let r = run_main("def main() 3.14159265358979323846").0;
    assert!((r - 3.141592653589793).abs() < 1e-15);
}
