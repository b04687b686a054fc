use rlox::chunk::{Chunk, OpCode};
use rlox::compiler::Compiler;
use rlox::error::{Error, Site};
use rlox::value::{
    number_equal, number_less, number_negate, ArithOp, Value, ValueTypeError,
};
use rlox::vm::{binary_op, VM, STACK_OVERFLOW};

/// The binary64 number that a number literal denotes, by its bits.
fn parse_number(lexeme: &Vec<u8>) -> u64 {
    std::str::from_utf8(lexeme)
        .ok()
        .and_then(|text| text.parse::<f64>().ok())
        .unwrap_or(f64::NAN)
        .to_bits()
}

/// Binary64 arithmetic of the machine, on bit patterns.
fn arith(op: ArithOp, a: u64, b: u64) -> u64 {
    let (x, y) = (f64::from_bits(a), f64::from_bits(b));
    let r = match op {
        ArithOp::Add => x + y,
        ArithOp::Subtract => x - y,
        ArithOp::Multiply => x * y,
        ArithOp::Divide => x / y,
    };
    r.to_bits()
}

fn num(x: f64) -> Value {
    Value::Number(x.to_bits())
}

fn eval(source: &str) -> Result<Value, Error> {
    let mut vm = VM::new();
    vm.interpret_source(source.as_bytes(), &parse_number, &arith)
}

fn compile(source: &str) -> (Result<bool, Error>, Chunk, Option<Error>) {
    let mut compiler = Compiler::new(source.as_bytes(), Chunk::new());
    let r = compiler.compile(&parse_number);
    let (chunk, report) = compiler.finish();
    (r, chunk, report)
}

#[test]
fn precedence() {
    assert_eq!(eval("1 + 2 * 3").unwrap(), num(7.0));
    assert_eq!(eval("(1 + 2) * 3").unwrap(), num(9.0));
}

#[test]
fn subtraction_is_left_associative() {
    assert_eq!(eval("10 - 3 - 2").unwrap(), num(5.0));
}

#[test]
fn equality_across_types() {
    assert_eq!(eval("1 == true").unwrap(), Value::Bool(false));
    assert_eq!(eval("nil == nil").unwrap(), Value::Bool(true));
    assert_eq!(eval("\"a\" == \"a\"").unwrap(), Value::Bool(true));
    assert_eq!(eval("\"a\" != \"b\"").unwrap(), Value::Bool(true));
}

#[test]
fn falsiness() {
    assert_eq!(eval("!nil").unwrap(), Value::Bool(true));
    assert_eq!(eval("!false").unwrap(), Value::Bool(true));
    assert_eq!(eval("!0").unwrap(), Value::Bool(false));
    assert_eq!(eval("!\"\"").unwrap(), Value::Bool(false));
}

#[test]
fn concatenation() {
    assert_eq!(eval("\"foo\" + \"bar\"").unwrap(), Value::Str(b"foobar".to_vec()));
}

#[test]
fn greater_equal_is_not_less() {
    assert_eq!(eval("!(1 < 2) == (1 >= 2)").unwrap(), Value::Bool(true));
    // NaN >= x compiles to !(NaN < x), which is true.
    assert_eq!(eval("(0 / 0) >= 1").unwrap(), Value::Bool(true));
    assert_eq!(eval("(0 / 0) <= 1").unwrap(), Value::Bool(true));
    assert_eq!(eval("(0 / 0) < 1").unwrap(), Value::Bool(false));
    assert_eq!(eval("(0 / 0) == (0 / 0)").unwrap(), Value::Bool(false));
}

#[test]
fn negative_plus_two() {
    assert_eq!(eval("-1 + 2").unwrap(), num(1.0));
}

#[test]
fn nested_groups() {
    assert_eq!(eval("(5 - (3 - 1)) + -1").unwrap(), num(2.0));
}

#[test]
fn not_nil_equals_true() {
    assert_eq!(eval("!nil == true").unwrap(), Value::Bool(true));
}

#[test]
fn concatenation_ab_cd() {
    assert_eq!(eval("\"ab\" + \"cd\"").unwrap(), Value::Str(b"abcd".to_vec()));
}

#[test]
fn adding_a_string_to_a_number_is_a_type_error() {
    let (r, _, _) = compile("1 + \"a\"");
    assert_eq!(r.unwrap(), true);
    match eval("1 + \"a\"") {
        Err(Error::TypeError { line, .. }) => assert_eq!(line, 1),
        other => panic!("unexpected {:?}", other),
    }
    match eval("\n\n-\"x\"") {
        Err(Error::TypeError { line, .. }) => assert_eq!(line, 3),
        other => panic!("unexpected {:?}", other),
    }
    assert!(matches!(eval("1 < nil"), Err(Error::TypeError { .. })));
}

#[test]
fn missing_right_paren_is_reported_at_end() {
    let (r, _, report) = compile("(1 + 2");
    assert_eq!(r.unwrap(), false);
    match report {
        Some(Error::CompileError { line, site, msg }) => {
            assert_eq!(line, 1);
            assert_eq!(site, Site::End);
            assert_eq!(msg, "Expect ')' after expression");
        }
        other => panic!("unexpected {:?}", other),
    }
    assert!(matches!(eval("(1 + 2"), Err(Error::CompileError { .. })));
}

#[test]
fn empty_source_is_a_compile_error() {
    let (r, _, report) = compile("");
    assert_eq!(r.unwrap(), false);
    match report {
        Some(Error::CompileError { site, msg, .. }) => {
            assert_eq!(site, Site::End);
            assert_eq!(msg, "Expect expression");
        }
        other => panic!("unexpected {:?}", other),
    }
}

#[test]
fn error_at_a_token_names_its_lexeme() {
    let (r, _, report) = compile("1 + * 2");
    assert_eq!(r.unwrap(), false);
    match report {
        Some(Error::CompileError { site, msg, .. }) => {
            assert_eq!(site, Site::Lexeme(b"*".to_vec()));
            assert_eq!(msg, "Expect expression");
        }
        other => panic!("unexpected {:?}", other),
    }
    let (r, _, report) = compile("1 2");
    assert_eq!(r.unwrap(), false);
    match report {
        Some(Error::CompileError { site, msg, .. }) => {
            assert_eq!(site, Site::Lexeme(b"2".to_vec()));
            assert_eq!(msg, "Expect end of expression");
        }
        other => panic!("unexpected {:?}", other),
    }
}

#[test]
fn scan_errors_become_compile_errors() {
    let (r, _, report) = compile("1 + @");
    assert_eq!(r.unwrap(), false);
    match report {
        Some(Error::CompileError { site, msg, .. }) => {
            assert_eq!(site, Site::Lexeme(b"@".to_vec()));
            assert_eq!(msg, "unknown token");
        }
        other => panic!("unexpected {:?}", other),
    }
}

#[test]
fn comparison_operators_compile_as_documented() {
    let op = |o: OpCode| o.to_byte();
    let (r, chunk, _) = compile("1 >= 2");
    assert!(r.unwrap());
    assert_eq!(
        chunk.code(),
        &[op(OpCode::OpConstant), 0, op(OpCode::OpConstant), 1, op(OpCode::OpLess), op(OpCode::OpNot), op(OpCode::OpReturn)][..]
    );
    let (_, chunk, _) = compile("1 <= 2");
    assert_eq!(&chunk.code()[4..6], &[op(OpCode::OpGreater), op(OpCode::OpNot)][..]);
    let (_, chunk, _) = compile("1 != 2");
    assert_eq!(&chunk.code()[4..6], &[op(OpCode::OpEqual), op(OpCode::OpNot)][..]);
    let (_, chunk, _) = compile("-true");
    assert_eq!(chunk.code(), &[op(OpCode::OpTrue), op(OpCode::OpNegate), op(OpCode::OpReturn)][..]);
}

#[test]
fn string_constant_drops_quotes() {
    let (r, chunk, _) = compile("\"hi there\"");
    assert!(r.unwrap());
    assert_eq!(chunk.constants().get(0), &Value::Str(b"hi there".to_vec()));
}

#[test]
fn deep_nesting_overflows_the_stack() {
    let mut source = String::new();
    for _ in 0..120 {
        source.push_str("1 + (");
    }
    source.push('1');
    for _ in 0..120 {
        source.push(')');
    }
    match eval(&source) {
        Err(Error::RuntimeError { msg }) => assert_eq!(msg, STACK_OVERFLOW),
        other => panic!("unexpected {:?}", other),
    }
    let mut source = String::new();
    for _ in 0..90 {
        source.push_str("1 + (");
    }
    source.push('1');
    for _ in 0..90 {
        source.push(')');
    }
    assert_eq!(eval(&source).unwrap(), num(91.0));
}

#[test]
fn many_constants_in_one_expression() {
    let mut source = String::from("0");
    for i in 1..300 {
        source.push_str(&format!(" + {}", i));
    }
    assert_eq!(eval(&source).unwrap(), num((0..300).sum::<i32>() as f64));
}

#[test]
fn vm_stack_operations() {
    let mut vm = VM::new();
    assert!(vm.pop().is_err());
    assert!(vm.peek(0).is_err());
    vm.push(Value::Nil).unwrap();
    vm.push(Value::Bool(true)).unwrap();
    assert_eq!(vm.peek(0).unwrap(), &Value::Bool(true));
    assert_eq!(vm.peek(1).unwrap(), &Value::Nil);
    assert_eq!(vm.pop().unwrap(), Value::Bool(true));
    for _ in 0..99 {
        vm.push(Value::Nil).unwrap();
    }
    assert!(vm.push(Value::Nil).is_err());
}

#[test]
fn vm_runs_hand_written_code() {
    let mut vm = VM::new();
    vm.write_constant(num(2.5), 1);
    vm.write_opcode(OpCode::OpNegate, 1);
    vm.write(OpCode::OpReturn.to_byte(), 2);
    assert_eq!(vm.run(&arith).unwrap(), num(-2.5));
    let mut vm = VM::new();
    vm.write(200, 1);
    assert!(matches!(vm.run(&arith), Err(Error::RuntimeError { .. })));
    let mut vm = VM::new();
    vm.write_opcode(OpCode::OpAdd, 1);
    assert!(matches!(vm.run(&arith), Err(Error::RuntimeError { .. })));
}

#[test]
fn number_bits() {
    let nan = f64::NAN.to_bits();
    assert!(!number_equal(nan, nan));
    assert!(number_equal(0.0f64.to_bits(), (-0.0f64).to_bits()));
    assert!(number_less((-3.0f64).to_bits(), (-2.0f64).to_bits()));
    assert!(number_less((-0.5f64).to_bits(), 0.25f64.to_bits()));
    assert!(!number_less((-0.0f64).to_bits(), 0.0f64.to_bits()));
    assert!(!number_less(nan, 1.0f64.to_bits()));
    assert!(number_less(1.0f64.to_bits(), f64::INFINITY.to_bits()));
    assert_eq!(number_negate(1.5f64.to_bits()), (-1.5f64).to_bits());
}

#[test]
fn binary_op_kinds() {
    assert_eq!(
        binary_op(OpCode::OpAdd, Value::Str(b"a".to_vec()), Value::Str(b"b".to_vec()), &arith),
        Ok(Value::Str(b"ab".to_vec()))
    );
    assert_eq!(
        binary_op(OpCode::OpDivide, num(1.0), num(4.0), &arith),
        Ok(num(0.25))
    );
    assert_eq!(
        binary_op(OpCode::OpSubtract, Value::Str(b"a".to_vec()), Value::Str(b"b".to_vec()), &arith),
        Err(ValueTypeError { msg: "Operand must be a number" })
    );
    assert_eq!(binary_op(OpCode::OpGreater, num(2.0), num(1.0), &arith), Ok(Value::Bool(true)));
    assert_eq!(binary_op(OpCode::OpEqual, Value::Nil, Value::Bool(false), &arith), Ok(Value::Bool(false)));
}

#[test]
fn compiled_code_has_a_line_for_every_byte() {
    let (r, chunk, _) = compile("1 +\n\n  2\n* -3");
    assert!(r.unwrap());
    let lines: Vec<u32> = (0..chunk.len()).map(|i| chunk.get_line_number(i)).collect();
    assert_eq!(lines, vec![1, 1, 3, 3, 4, 4, 4, 4, 4, 4]);
    assert!(lines.iter().all(|l| *l >= 1));
}

#[test]
fn and_or_and_dot_do_not_bind() {
    for source in ["1 and 2", "1 or 2", "1 . 2"] {
        let (r, _, report) = compile(source);
        assert_eq!(r.unwrap(), false);
        match report {
            Some(Error::CompileError { msg, .. }) => assert_eq!(msg, "Expect end of expression"),
            other => panic!("unexpected {:?}", other),
        }
    }
}

#[test]
fn constants_of_a_mixed_sum() {
    let op = |o: OpCode| o.to_byte();
    let (r, chunk, _) = compile("1 + \"a\"");
    assert!(r.unwrap());
    assert_eq!(
        chunk.code(),
        &[op(OpCode::OpConstant), 0, op(OpCode::OpConstant), 1, op(OpCode::OpAdd), op(OpCode::OpReturn)][..]
    );
    assert_eq!(chunk.constants().len(), 2);
    assert_eq!(chunk.constants().get(0), &num(1.0));
    assert_eq!(chunk.constants().get(1), &Value::Str(b"a".to_vec()));
}

#[test]
fn string_bytes_are_kept_raw() {
    let (r, chunk, _) = compile("\"a\\nb\"");
    assert!(r.unwrap());
    assert_eq!(chunk.constants().get(0), &Value::Str(b"a\\nb".to_vec()));
    assert_eq!(eval("\"a\\nb\"").unwrap(), Value::Str(vec![b'a', b'\\', b'n', b'b']));
}
