use loxvm::chunk::OpCode;
use loxvm::compiler::number_literals;
use loxvm::value::Value;
use loxvm::vm::{Arithmetic, InterpretError, Signal, VM};

// the values of the number literals of a source, as the compiler takes them
fn numbers(source: &str) -> Vec<u64> {
    number_literals(source.to_string())
        .iter()
        .map(|text| text.parse::<f64>().expect("a number literal").to_bits())
        .collect()
}

// the host of the machine: it does the arithmetic
fn arithmetic(wanted: Arithmetic) -> u64 {
    let left = f64::from_bits(wanted.left);
    let right = f64::from_bits(wanted.right);
    let computed = match wanted.op {
        OpCode::Add => left + right,
        OpCode::Subtract => left - right,
        OpCode::Multiply => left * right,
        OpCode::Divide => left / right,
        other => panic!("no arithmetic: {:?}", other),
    };
    computed.to_bits()
}

fn interpret(vm: &mut VM, source: &str) -> Result<Option<Value>, InterpretError> {
    vm.interpret(source.to_string(), &numbers(source), &arithmetic)
}

// compiles a source and runs it to where the machine waits first, or to its end
fn start(vm: &mut VM, source: &str) -> Result<Option<Value>, InterpretError> {
    match vm.try_load(source.to_string(), &numbers(source)) {
        Ok(Ok(())) => vm.run(),
        Ok(Err(error)) => Err(error),
        Err(ice) => panic!("{:?}", ice),
    }
}

#[test]
fn test_vm_interpret() {
    // test error
    {
        let mut vm = VM::new();
        assert_eq!(
            interpret(&mut vm, "1 +"),
            Err(InterpretError::CompileError)
        );
    }

    // test unary ops
    {
        let mut vm = VM::new();
        assert_eq!(
            interpret(&mut vm, "-3"),
            Ok(Some(Value::Number((-3.0f64).to_bits())))
        );
    }

    {
        let mut vm = VM::new();
        assert_eq!(
            interpret(&mut vm, "!true"),
            Ok(Some(Value::Bool(false)))
        );
    }

    {
        let mut vm = VM::new();
        assert_eq!(
            interpret(&mut vm, "!false"),
            Ok(Some(Value::Bool(true)))
        );
    }

    {
        let mut vm = VM::new();
        assert_eq!(
            interpret(&mut vm, "!nil"),
            Ok(Some(Value::Bool(true)))
        );
    }

    {
        let mut vm = VM::new();
        // intentional: only `nil` and `false` are falsey, everything else is truthy
        assert_eq!(interpret(&mut vm, "!0"), Ok(Some(Value::Bool(false))));
    }

    {
        let mut vm = VM::new();
        assert_eq!(interpret(&mut vm, "!1"), Ok(Some(Value::Bool(false))));
    }

    // test binary ops
    {
        let mut vm = VM::new();
        assert_eq!(
            interpret(&mut vm, "1 + 2"),
            Ok(Some(Value::Number((3.0f64).to_bits())))
        );
    }

    {
        let mut vm = VM::new();
        assert_eq!(
            interpret(&mut vm, "8 - 3"),
            Ok(Some(Value::Number((5.0f64).to_bits())))
        );
    }

    {
        let mut vm = VM::new();
        assert_eq!(
            interpret(&mut vm, "5 * 6"),
            Ok(Some(Value::Number((30.0f64).to_bits())))
        );
    }

    {
        let mut vm = VM::new();
        assert_eq!(
            interpret(&mut vm, "28 / 4"),
            Ok(Some(Value::Number((7.0f64).to_bits())))
        );
    }

    {
        let mut vm = VM::new();
        assert_eq!(
            interpret(&mut vm, "2 > 3"),
            Ok(Some(Value::Bool(false)))
        );
    }

    {
        let mut vm = VM::new();
        assert_eq!(
            interpret(&mut vm, "3 > 3"),
            Ok(Some(Value::Bool(false)))
        );
    }

    {
        let mut vm = VM::new();
        assert_eq!(
            interpret(&mut vm, "4 > 3"),
            Ok(Some(Value::Bool(true)))
        );
    }

    {
        let mut vm = VM::new();
        assert_eq!(
            interpret(&mut vm, "2 >= 3"),
            Ok(Some(Value::Bool(false)))
        );
    }

    {
        let mut vm = VM::new();
        assert_eq!(
            interpret(&mut vm, "3 >= 3"),
            Ok(Some(Value::Bool(true)))
        );
    }

    {
        let mut vm = VM::new();
        assert_eq!(
            interpret(&mut vm, "4 >= 3"),
            Ok(Some(Value::Bool(true)))
        );
    }

    {
        let mut vm = VM::new();
        assert_eq!(
            interpret(&mut vm, "2 < 3"),
            Ok(Some(Value::Bool(true)))
        );
    }

    {
        let mut vm = VM::new();
        assert_eq!(
            interpret(&mut vm, "3 < 3"),
            Ok(Some(Value::Bool(false)))
        );
    }

    {
        let mut vm = VM::new();
        assert_eq!(
            interpret(&mut vm, "4 < 3"),
            Ok(Some(Value::Bool(false)))
        );
    }

    {
        let mut vm = VM::new();
        assert_eq!(
            interpret(&mut vm, "2 <= 3"),
            Ok(Some(Value::Bool(true)))
        );
    }

    {
        let mut vm = VM::new();
        assert_eq!(
            interpret(&mut vm, "3 <= 3"),
            Ok(Some(Value::Bool(true)))
        );
    }

    {
        let mut vm = VM::new();
        assert_eq!(
            interpret(&mut vm, "4 <= 3"),
            Ok(Some(Value::Bool(false)))
        );
    }

    {
        let mut vm = VM::new();
        // `a <= b` is `!(a > b)`, so that `NaN <= 1` is true, which IEEE-754
        // has false: the language is defined so
        assert_eq!(
            interpret(&mut vm, "(0.0 / 0.0) <= 1"),
            Ok(Some(Value::Bool(true)))
        );
    }

    {
        let mut vm = VM::new();
        // `a >= b` is `!(a < b)`, so that `NaN >= 1` is true, which IEEE-754
        // has false: the language is defined so
        assert_eq!(
            interpret(&mut vm, "(0.0 / 0.0) >= 1"),
            Ok(Some(Value::Bool(true)))
        );
    }

    {
        let mut vm = VM::new();
        assert_eq!(
            interpret(&mut vm, "2 == 2"),
            Ok(Some(Value::Bool(true)))
        );
    }

    {
        let mut vm = VM::new();
        assert_eq!(
            interpret(&mut vm, "2 != 2"),
            Ok(Some(Value::Bool(false)))
        );
    }

    {
        let mut vm = VM::new();
        assert_eq!(
            interpret(&mut vm, "3 == 2"),
            Ok(Some(Value::Bool(false)))
        );
    }

    {
        let mut vm = VM::new();
        assert_eq!(
            interpret(&mut vm, "3 != 2"),
            Ok(Some(Value::Bool(true)))
        );
    }

    {
        let mut vm = VM::new();
        assert_eq!(
            interpret(&mut vm, "true == 1"),
            Ok(Some(Value::Bool(false)))
        );
    }

    {
        let mut vm = VM::new();
        assert_eq!(
            interpret(&mut vm, "false == nil"),
            Ok(Some(Value::Bool(false)))
        );
    }

    {
        let mut vm = VM::new();
        assert_eq!(
            interpret(&mut vm, "nil == nil"),
            Ok(Some(Value::Bool(true)))
        );
    }

    // test complex expressions
    {
        let mut vm = VM::new();
        assert_eq!(
            interpret(&mut vm, "(-1 + 2) * 3 - -4"),
            Ok(Some(Value::Number((7.0f64).to_bits())))
        );
    }

    {
        let mut vm = VM::new();
        assert_eq!(
            interpret(&mut vm, "!(5 - 4 > 3 * 2 == !nil)"),
            Ok(Some(Value::Bool(true)))
        );
    }

    // test runtime errors
    {
        let mut vm = VM::new();
        // negate does not work on booleans
        assert_eq!(
            interpret(&mut vm, "-false"),
            Err(InterpretError::RuntimeError)
        );
    }

    {
        let mut vm = VM::new();
        // arithmetic does not work on booleans
        assert_eq!(
            interpret(&mut vm, "true + false"),
            Err(InterpretError::RuntimeError)
        );
    }
}

use loxvm::compiler::Ice;

fn run(source: &str) -> Result<Option<Value>, InterpretError> {
    let mut vm = VM::new();
    interpret(&mut vm, source)
}

fn number(value: f64) -> Result<Option<Value>, InterpretError> {
    Ok(Some(Value::Number(value.to_bits())))
}

fn boolean(value: bool) -> Result<Option<Value>, InterpretError> {
    Ok(Some(Value::Bool(value)))
}

#[test]
fn test_negated_number() {
    assert_eq!(run("-3"), number(-3.0));
}

#[test]
fn test_sum() {
    assert_eq!(run("1 + 2"), number(3.0));
}

#[test]
fn test_arithmetic_expression() {
    assert_eq!(run("(-1 + 2) * 3 - -4"), number(7.0));
    assert_eq!(run("1 - 2 - 3"), number(-4.0));
    assert_eq!(run("2 * 3 + 4"), number(10.0));
    assert_eq!(run("2 + 3 * 4"), number(14.0));
    assert_eq!(run("8 / 4 / 2"), number(1.0));
    assert_eq!(run("0.1 + 0.2"), number(0.1 + 0.2));
    assert_eq!(run("1 / 0"), number(f64::INFINITY));
    assert_eq!(run("-1 / 0"), number(f64::NEG_INFINITY));
}

#[test]
fn test_mixed_expression() {
    assert_eq!(run("!(5 - 4 > 3 * 2 == !nil)"), boolean(true));
}

#[test]
fn test_equality_across_types() {
    assert_eq!(run("true == 1"), boolean(false));
    assert_eq!(run("nil == nil"), boolean(true));
    assert_eq!(run("nil == false"), boolean(false));
    assert_eq!(run("0 == false"), boolean(false));
    assert_eq!(run("true != 1"), boolean(true));
    assert_eq!(run("true == true"), boolean(true));
    assert_eq!(run("true == false"), boolean(false));
}

#[test]
fn test_equality_of_numbers() {
    assert_eq!(run("1.5 == 1.5"), boolean(true));
    assert_eq!(run("0 == -0"), boolean(true));
    // a NaN is equal to nothing, not even to itself
    assert_eq!(run("0 / 0 == 0 / 0"), boolean(false));
    assert_eq!(run("0 / 0 != 0 / 0"), boolean(true));
}

#[test]
fn test_errors() {
    assert_eq!(run("-false"), Err(InterpretError::RuntimeError));
    assert_eq!(run("true + false"), Err(InterpretError::RuntimeError));
    assert_eq!(run("1 +"), Err(InterpretError::CompileError));
}

#[test]
fn test_comparison_with_nan() {
    assert_eq!(run("(0.0 / 0.0) <= 1"), boolean(true));
    assert_eq!(run("(0.0 / 0.0) >= 1"), boolean(true));
    assert_eq!(run("(0.0 / 0.0) < 1"), boolean(false));
    assert_eq!(run("(0.0 / 0.0) > 1"), boolean(false));
}

#[test]
fn test_comparisons() {
    assert_eq!(run("-1 < 1"), boolean(true));
    assert_eq!(run("-1 > -2"), boolean(true));
    assert_eq!(run("-0 < 0"), boolean(false));
    assert_eq!(run("0 > -0"), boolean(false));
    assert_eq!(run("1 / 0 > 1000000"), boolean(true));
    assert_eq!(run("-1 / 0 < -1000000"), boolean(true));
    assert_eq!(run("0.000001 < 0.00001"), boolean(true));
}

#[test]
fn test_not() {
    assert_eq!(run("!0"), boolean(false));
    assert_eq!(run("!nil"), boolean(true));
    assert_eq!(run("!!nil"), boolean(false));
    assert_eq!(run("!(0 / 0)"), boolean(false));
}

#[test]
fn test_literals() {
    assert_eq!(run("nil"), Ok(Some(Value::Nil)));
    assert_eq!(run("true"), boolean(true));
    assert_eq!(run("false"), boolean(false));
    assert_eq!(run("12.5"), number(12.5));
}

#[test]
fn test_runtime_errors_on_operands() {
    for source in [
        "-nil", "-true", "1 + nil", "nil + 1", "true - 1", "1 * false", "nil / nil", "1 < nil",
        "true > false", "nil <= 1", "1 >= true", "-(1 < 2)", "1 + (2 == 2)",
    ] {
        assert_eq!(run(source), Err(InterpretError::RuntimeError), "{:?}", source);
    }
}

#[test]
fn test_report_of_a_runtime_error() {
    let mut vm = VM::new();
    assert_eq!(interpret(&mut vm, "1 +\n\n-false"), Err(InterpretError::RuntimeError));
    let report = vm.report().as_ref().expect("a report");
    assert_eq!(report.message, "Operand must be a number.");
    assert_eq!(report.line, 3);
    assert_eq!(report.render_line(), "[line 3] in script");
    // the stack is cleared
    assert!(vm.stack().is_empty());

    let mut vm = VM::new();
    assert_eq!(interpret(&mut vm, "1\n<\ntrue"), Err(InterpretError::RuntimeError));
    let report = vm.report().as_ref().expect("a report");
    assert_eq!(report.message, "Operands must be numbers.");
    // the instruction is on the line of the token before it
    assert_eq!(report.line, 3);
    assert!(vm.stack().is_empty());

    let mut vm = VM::new();
    assert_eq!(interpret(&mut vm, "nil\n+ 1\n+ 2"), Err(InterpretError::RuntimeError));
    let report = vm.report().as_ref().expect("a report");
    assert_eq!(report.message, "Operands must be numbers.");
    assert_eq!(report.line, 2);
}

#[test]
fn test_reports_of_a_compile_error() {
    let mut vm = VM::new();
    assert_eq!(interpret(&mut vm, "(1 + 2"), Err(InterpretError::CompileError));
    let texts: Vec<String> = vm.diagnostics().iter().map(|d| d.render()).collect();
    assert_eq!(texts, vec!["[line 1] Error at end: Expect ')' after expression."]);
    assert!(vm.report().is_none());

    // the reports are those of the last source
    assert_eq!(interpret(&mut vm, "1 + 2"), number(3.0));
    assert!(vm.diagnostics().is_empty());
}

#[test]
fn test_a_machine_runs_one_source_after_the_other() {
    let mut vm = VM::new();
    assert_eq!(interpret(&mut vm, "1 + 2"), number(3.0));
    assert!(vm.stack().is_empty());
    assert_eq!(interpret(&mut vm, "-nil"), Err(InterpretError::RuntimeError));
    assert!(vm.report().is_some());
    assert_eq!(interpret(&mut vm, "2 * 3"), number(6.0));
    assert!(vm.report().is_none());
    assert_eq!(interpret(&mut vm, ")"), Err(InterpretError::CompileError));
    assert_eq!(interpret(&mut vm, "!nil"), boolean(true));
}

#[test]
fn test_the_machine_waits_for_arithmetic() {
    let mut vm = VM::new();
    assert_eq!(start(&mut vm, "(1 + 2) * 4"), Ok(None));
    assert_eq!(
        vm.pending(),
        Some(Arithmetic { op: OpCode::Add, left: 1.0f64.to_bits(), right: 2.0f64.to_bits() })
    );
    // the operands are still on the stack
    assert_eq!(vm.stack().len(), 2);

    // whatever the host gives is the result
    assert_eq!(vm.resume(10.0f64.to_bits()), Ok(None));
    assert_eq!(
        vm.pending(),
        Some(Arithmetic { op: OpCode::Multiply, left: 10.0f64.to_bits(), right: 4.0f64.to_bits() })
    );
    assert_eq!(vm.resume(0.5f64.to_bits()), number(0.5));
    assert_eq!(vm.pending(), None);
    assert!(vm.stack().is_empty());
}

#[test]
fn test_each_arithmetic_instruction_is_asked_for() {
    for (source, op) in [
        ("6 + 3", OpCode::Add),
        ("6 - 3", OpCode::Subtract),
        ("6 * 3", OpCode::Multiply),
        ("6 / 3", OpCode::Divide),
    ] {
        let mut vm = VM::new();
        assert_eq!(start(&mut vm, source), Ok(None));
        assert_eq!(
            vm.pending(),
            Some(Arithmetic { op, left: 6.0f64.to_bits(), right: 3.0f64.to_bits() })
        );
    }
    // the machine compares and negates by itself
    for source in ["6 < 3", "6 > 3", "6 <= 3", "6 >= 3", "6 == 3", "6 != 3", "-6", "!6"] {
        let mut vm = VM::new();
        let result = start(&mut vm, source);
        assert!(matches!(result, Ok(Some(_))), "{:?}", source);
        assert_eq!(vm.pending(), None);
    }
}

#[test]
fn test_step_by_step() {
    let mut vm = VM::new();
    let source = "!(1 + 2)";
    assert_eq!(vm.try_load(source.to_string(), &numbers(source)), Ok(Ok(())));
    assert_eq!(vm.ip(), 0);
    assert!(vm.stack().is_empty());
    assert_eq!(vm.chunk().code_len(), 7);

    assert!(matches!(vm.step(), Signal::Continue));
    assert_eq!(vm.ip(), 2);
    assert_eq!(vm.stack(), &vec![Value::Number(1.0f64.to_bits())]);
    assert!(matches!(vm.step(), Signal::Continue));
    assert_eq!(vm.ip(), 4);
    assert_eq!(vm.stack().len(), 2);

    // the machine stays at the arithmetic until it is supplied
    assert!(matches!(vm.step(), Signal::Waiting));
    assert!(matches!(vm.step(), Signal::Waiting));
    assert_eq!(vm.ip(), 4);
    assert_eq!(vm.stack().len(), 2);
    vm.supply(3.0f64.to_bits());
    assert_eq!(vm.ip(), 5);
    assert_eq!(vm.stack(), &vec![Value::Number(3.0f64.to_bits())]);

    assert!(matches!(vm.step(), Signal::Continue));
    assert_eq!(vm.stack(), &vec![Value::Bool(false)]);
    assert!(matches!(vm.step(), Signal::Finished(Value::Bool(false))));
    assert_eq!(vm.ip(), 7);
    assert!(vm.stack().is_empty());
}

#[test]
fn test_step_into_a_runtime_error() {
    let mut vm = VM::new();
    assert_eq!(vm.try_load("1 + nil".to_string(), &numbers("1 + nil")), Ok(Ok(())));
    assert!(matches!(vm.step(), Signal::Continue));
    assert!(matches!(vm.step(), Signal::Continue));
    assert!(matches!(vm.step(), Signal::Failed));
    assert!(vm.stack().is_empty());
    assert_eq!(vm.report().as_ref().expect("a report").message, "Operands must be numbers.");
    assert_eq!(vm.pending(), None);
}

#[test]
fn test_errors_of_the_compiler_itself() {
    let source = (0..257).map(|i| i.to_string()).collect::<Vec<_>>().join(" + ");
    let mut vm = VM::new();
    assert_eq!(
        vm.try_interpret(source.clone(), &numbers(&source), &arithmetic),
        Err(Ice::TooManyConstants)
    );
    assert_eq!(vm.try_load(source.clone(), &numbers(&source)), Err(Ice::TooManyConstants));
    assert_eq!(
        vm.try_interpret("1".to_string(), &vec![], &arithmetic),
        Err(Ice::NumberWithoutValue)
    );
    // the machine is as it was
    assert_eq!(vm.chunk().code_len(), 0);
    assert_eq!(interpret(&mut vm, "1 == 1"), boolean(true));
}

#[test]
fn test_try_interpret_agrees_with_interpret() {
    for source in ["1 == 1", "nil", "-true", "(", "7", "1 + 2 * 3", "1 + nil"] {
        let mut vm = VM::new();
        let mut other = VM::new();
        assert_eq!(
            vm.try_interpret(source.to_string(), &numbers(source), &arithmetic),
            Ok(other.interpret(source.to_string(), &numbers(source), &arithmetic)),
            "{:?}",
            source
        );
    }
}

#[test]
fn test_new_machine() {
    let vm = VM::new();
    assert_eq!(vm.ip(), 0);
    assert!(vm.stack().is_empty());
    assert_eq!(vm.chunk().code_len(), 0);
    assert!(vm.diagnostics().is_empty());
    assert!(vm.report().is_none());
    assert_eq!(vm.pending(), None);
}

#[test]
fn test_run_with_a_host() {
    let mut vm = VM::new();
    assert_eq!(vm.try_load("(1 + 2) * 4 - 2".to_string(), &numbers("(1 + 2) * 4 - 2")), Ok(Ok(())));
    assert_eq!(vm.run_with(&arithmetic), number(10.0));
    assert!(vm.stack().is_empty());

    // the host is asked for each arithmetic instruction, in the order of the code
    let asked = std::cell::RefCell::new(Vec::new());
    let host = |wanted: Arithmetic| {
        asked.borrow_mut().push(wanted.op);
        arithmetic(wanted)
    };
    let mut vm = VM::new();
    assert_eq!(
        vm.interpret("1 + 2 * 3 - 4 / 2 < 6".to_string(), &numbers("1 + 2 * 3 - 4 / 2 < 6"), &host),
        boolean(true)
    );
    assert_eq!(
        asked.into_inner(),
        vec![OpCode::Multiply, OpCode::Add, OpCode::Divide, OpCode::Subtract]
    );

    // whatever the host gives is the result
    let mut vm = VM::new();
    let constant = |_: Arithmetic| 42.0f64.to_bits();
    assert_eq!(vm.interpret("1 + 2".to_string(), &numbers("1 + 2"), &constant), number(42.0));
}

#[test]
fn test_a_run_never_ends_waiting() {
    for source in ["1 + 2", "1 + 2 + 3 + 4", "(1 / 2) * (3 - 4)", "1 + nil", "nil + 1", "-(1 + 2)"] {
        let mut vm = VM::new();
        assert_ne!(interpret(&mut vm, source), Ok(None), "{:?}", source);
        assert_eq!(vm.pending(), None);
    }
}
