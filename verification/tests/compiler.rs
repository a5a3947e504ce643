use loxvm::chunk::{Chunk, OpCode};
use loxvm::compiler::{number_literals, Compiler};
use loxvm::value::Value;

// the values of the number literals of a source, as the compiler takes them
fn numbers(source: &str) -> Vec<u64> {
    number_literals(source.to_string())
        .iter()
        .map(|text| text.parse::<f64>().expect("a number literal").to_bits())
        .collect()
}

#[test]
fn test_compiler_compile() {
    // test error
    {
        let mut compiler = Compiler::new("1 +".to_string());
        assert_eq!(compiler.compile(&numbers("1 +")), Err(()));
    }

    // test unary ops
    {
        let mut compiler = Compiler::new("-3".to_string());
        let mut chunk = Chunk::new();

        let constant = chunk.constants_mut().add(Value::Number(3.0f64.to_bits()));
        chunk.write(OpCode::Constant as u8, 1);
        chunk.write(constant as u8, 1);

        chunk.write(OpCode::Negate as u8, 1);

        chunk.write(OpCode::Return as u8, 1);

        assert_eq!(compiler.compile(&numbers("-3")), Ok(chunk));
    }

    {
        let mut compiler = Compiler::new("!true".to_string());
        let mut chunk = Chunk::new();

        chunk.write(OpCode::True as u8, 1);
        chunk.write(OpCode::Not as u8, 1);
        chunk.write(OpCode::Return as u8, 1);

        assert_eq!(compiler.compile(&numbers("!true")), Ok(chunk));
    }

    // test binary ops
    {
        let mut compiler = Compiler::new("1 + 2".to_string());
        let mut chunk = Chunk::new();

        let constant = chunk.constants_mut().add(Value::Number(1.0f64.to_bits()));
        chunk.write(OpCode::Constant as u8, 1);
        chunk.write(constant as u8, 1);

        let constant = chunk.constants_mut().add(Value::Number(2.0f64.to_bits()));
        chunk.write(OpCode::Constant as u8, 1);
        chunk.write(constant as u8, 1);

        chunk.write(OpCode::Add as u8, 1);

        chunk.write(OpCode::Return as u8, 1);

        assert_eq!(compiler.compile(&numbers("1 + 2")), Ok(chunk));
    }

    {
        let mut compiler = Compiler::new("8 - 3".to_string());
        let mut chunk = Chunk::new();

        let constant = chunk.constants_mut().add(Value::Number(8.0f64.to_bits()));
        chunk.write(OpCode::Constant as u8, 1);
        chunk.write(constant as u8, 1);

        let constant = chunk.constants_mut().add(Value::Number(3.0f64.to_bits()));
        chunk.write(OpCode::Constant as u8, 1);
        chunk.write(constant as u8, 1);

        chunk.write(OpCode::Subtract as u8, 1);

        chunk.write(OpCode::Return as u8, 1);

        assert_eq!(compiler.compile(&numbers("8 - 3")), Ok(chunk));
    }

    {
        let mut compiler = Compiler::new("5 * 6".to_string());
        let mut chunk = Chunk::new();

        let constant = chunk.constants_mut().add(Value::Number(5.0f64.to_bits()));
        chunk.write(OpCode::Constant as u8, 1);
        chunk.write(constant as u8, 1);

        let constant = chunk.constants_mut().add(Value::Number(6.0f64.to_bits()));
        chunk.write(OpCode::Constant as u8, 1);
        chunk.write(constant as u8, 1);

        chunk.write(OpCode::Multiply as u8, 1);

        chunk.write(OpCode::Return as u8, 1);

        assert_eq!(compiler.compile(&numbers("5 * 6")), Ok(chunk));
    }

    {
        let mut compiler = Compiler::new("28 / 4".to_string());
        let mut chunk = Chunk::new();

        let constant = chunk.constants_mut().add(Value::Number(28.0f64.to_bits()));
        chunk.write(OpCode::Constant as u8, 1);
        chunk.write(constant as u8, 1);

        let constant = chunk.constants_mut().add(Value::Number(4.0f64.to_bits()));
        chunk.write(OpCode::Constant as u8, 1);
        chunk.write(constant as u8, 1);

        chunk.write(OpCode::Divide as u8, 1);

        chunk.write(OpCode::Return as u8, 1);

        assert_eq!(compiler.compile(&numbers("28 / 4")), Ok(chunk));
    }

    {
        let mut compiler = Compiler::new("true == nil".to_string());
        let mut chunk = Chunk::new();

        chunk.write(OpCode::True as u8, 1);

        chunk.write(OpCode::Nil as u8, 1);

        chunk.write(OpCode::Equal as u8, 1);

        chunk.write(OpCode::Return as u8, 1);

        assert_eq!(compiler.compile(&numbers("true == nil")), Ok(chunk));
    }

    {
        let mut compiler = Compiler::new("false != nil".to_string());
        let mut chunk = Chunk::new();

        chunk.write(OpCode::False as u8, 1);

        chunk.write(OpCode::Nil as u8, 1);

        chunk.write(OpCode::Equal as u8, 1);
        chunk.write(OpCode::Not as u8, 1);

        chunk.write(OpCode::Return as u8, 1);

        assert_eq!(compiler.compile(&numbers("false != nil")), Ok(chunk));
    }

    {
        let mut compiler = Compiler::new("3 > 4".to_string());
        let mut chunk = Chunk::new();

        let constant = chunk.constants_mut().add(Value::Number(3.0f64.to_bits()));
        chunk.write(OpCode::Constant as u8, 1);
        chunk.write(constant as u8, 1);

        let constant = chunk.constants_mut().add(Value::Number(4.0f64.to_bits()));
        chunk.write(OpCode::Constant as u8, 1);
        chunk.write(constant as u8, 1);

        chunk.write(OpCode::Greater as u8, 1);

        chunk.write(OpCode::Return as u8, 1);

        assert_eq!(compiler.compile(&numbers("3 > 4")), Ok(chunk));
    }

    {
        let mut compiler = Compiler::new("3 >= 4".to_string());
        let mut chunk = Chunk::new();

        let constant = chunk.constants_mut().add(Value::Number(3.0f64.to_bits()));
        chunk.write(OpCode::Constant as u8, 1);
        chunk.write(constant as u8, 1);

        let constant = chunk.constants_mut().add(Value::Number(4.0f64.to_bits()));
        chunk.write(OpCode::Constant as u8, 1);
        chunk.write(constant as u8, 1);

        // "NaN >= 1" is true, which IEEE-754 has false: the language is defined so
        chunk.write(OpCode::Less as u8, 1);
        chunk.write(OpCode::Not as u8, 1);

        chunk.write(OpCode::Return as u8, 1);

        assert_eq!(compiler.compile(&numbers("3 >= 4")), Ok(chunk));
    }

    {
        let mut compiler = Compiler::new("3 < 4".to_string());
        let mut chunk = Chunk::new();

        let constant = chunk.constants_mut().add(Value::Number(3.0f64.to_bits()));
        chunk.write(OpCode::Constant as u8, 1);
        chunk.write(constant as u8, 1);

        let constant = chunk.constants_mut().add(Value::Number(4.0f64.to_bits()));
        chunk.write(OpCode::Constant as u8, 1);
        chunk.write(constant as u8, 1);

        chunk.write(OpCode::Less as u8, 1);

        chunk.write(OpCode::Return as u8, 1);

        assert_eq!(compiler.compile(&numbers("3 < 4")), Ok(chunk));
    }

    {
        let mut compiler = Compiler::new("3 <= 4".to_string());
        let mut chunk = Chunk::new();

        let constant = chunk.constants_mut().add(Value::Number(3.0f64.to_bits()));
        chunk.write(OpCode::Constant as u8, 1);
        chunk.write(constant as u8, 1);

        let constant = chunk.constants_mut().add(Value::Number(4.0f64.to_bits()));
        chunk.write(OpCode::Constant as u8, 1);
        chunk.write(constant as u8, 1);

        // "NaN <= 1" is true, which IEEE-754 has false: the language is defined so
        chunk.write(OpCode::Greater as u8, 1);
        chunk.write(OpCode::Not as u8, 1);

        chunk.write(OpCode::Return as u8, 1);

        assert_eq!(compiler.compile(&numbers("3 <= 4")), Ok(chunk));
    }

    // test complex expressions
    {
        let mut compiler = Compiler::new("(-1 + 2) * 3 - -4".to_string());
        let mut chunk = Chunk::new();

        let constant = chunk.constants_mut().add(Value::Number(1.0f64.to_bits()));
        chunk.write(OpCode::Constant as u8, 1);
        chunk.write(constant as u8, 1);

        chunk.write(OpCode::Negate as u8, 1);

        let constant = chunk.constants_mut().add(Value::Number(2.0f64.to_bits()));
        chunk.write(OpCode::Constant as u8, 1);
        chunk.write(constant as u8, 1);

        chunk.write(OpCode::Add as u8, 1);

        let constant = chunk.constants_mut().add(Value::Number(3.0f64.to_bits()));
        chunk.write(OpCode::Constant as u8, 1);
        chunk.write(constant as u8, 1);

        chunk.write(OpCode::Multiply as u8, 1);

        let constant = chunk.constants_mut().add(Value::Number(4.0f64.to_bits()));
        chunk.write(OpCode::Constant as u8, 1);
        chunk.write(constant as u8, 1);

        chunk.write(OpCode::Negate as u8, 1);

        chunk.write(OpCode::Subtract as u8, 1);

        chunk.write(OpCode::Return as u8, 1);

        assert_eq!(compiler.compile(&numbers("(-1 + 2) * 3 - -4")), Ok(chunk));
    }

    // test multi-line
    {
        let mut compiler = Compiler::new("5\n*\n6".to_string());
        let mut chunk = Chunk::new();

        let constant = chunk.constants_mut().add(Value::Number(5.0f64.to_bits()));
        chunk.write(OpCode::Constant as u8, 1);
        chunk.write(constant as u8, 1);

        let constant = chunk.constants_mut().add(Value::Number(6.0f64.to_bits()));
        chunk.write(OpCode::Constant as u8, 3);
        chunk.write(constant as u8, 3);

        // line 3 is deliberate: an instruction takes the line of the token
        // that was read last when it is emitted
        chunk.write(OpCode::Multiply as u8, 3);

        chunk.write(OpCode::Return as u8, 3);

        assert_eq!(compiler.compile(&numbers("5\n*\n6")), Ok(chunk));
    }

    // test basic arithmetic precedences
    {
        let mut compiler = Compiler::new("1 - 4 * 6".to_string());
        let mut chunk = Chunk::new();

        let constant = chunk.constants_mut().add(Value::Number(1.0f64.to_bits()));
        chunk.write(OpCode::Constant as u8, 1);
        chunk.write(constant as u8, 1);

        let constant = chunk.constants_mut().add(Value::Number(4.0f64.to_bits()));
        chunk.write(OpCode::Constant as u8, 1);
        chunk.write(constant as u8, 1);

        let constant = chunk.constants_mut().add(Value::Number(6.0f64.to_bits()));
        chunk.write(OpCode::Constant as u8, 1);
        chunk.write(constant as u8, 1);

        chunk.write(OpCode::Multiply as u8, 1);

        chunk.write(OpCode::Subtract as u8, 1);

        chunk.write(OpCode::Return as u8, 1);

        assert_eq!(compiler.compile(&numbers("1 - 4 * 6")), Ok(chunk));
    }

    {
        let mut compiler = Compiler::new("1 * 4 - 6".to_string());
        let mut chunk = Chunk::new();

        let constant = chunk.constants_mut().add(Value::Number(1.0f64.to_bits()));
        chunk.write(OpCode::Constant as u8, 1);
        chunk.write(constant as u8, 1);

        let constant = chunk.constants_mut().add(Value::Number(4.0f64.to_bits()));
        chunk.write(OpCode::Constant as u8, 1);
        chunk.write(constant as u8, 1);

        chunk.write(OpCode::Multiply as u8, 1);

        let constant = chunk.constants_mut().add(Value::Number(6.0f64.to_bits()));
        chunk.write(OpCode::Constant as u8, 1);
        chunk.write(constant as u8, 1);

        chunk.write(OpCode::Subtract as u8, 1);

        chunk.write(OpCode::Return as u8, 1);

        assert_eq!(compiler.compile(&numbers("1 * 4 - 6")), Ok(chunk));
    }
}

use loxvm::compiler::Ice;

fn code_of(chunk: &Chunk) -> Vec<u8> {
    (0..chunk.code_len()).map(|i| chunk.get_code(i)).collect()
}

fn lines_of(chunk: &Chunk) -> Vec<u32> {
    (0..chunk.code_len()).map(|i| chunk.get_line(i)).collect()
}

fn constants_of(chunk: &Chunk) -> Vec<f64> {
    (0..chunk.constants().len())
        .map(|i| match chunk.constants().get(i) {
            Value::Number(bits) => f64::from_bits(bits),
            other => panic!("no number: {:?}", other),
        })
        .collect()
}

fn compile(source: &str) -> Result<Chunk, ()> {
    Compiler::new(source.to_string()).compile(&numbers(source))
}

// the reports of the errors of a source, as lines of text
fn reports(source: &str) -> Vec<String> {
    let mut compiler = Compiler::new(source.to_string());
    let result = compiler.compile(&numbers(source));
    let texts: Vec<String> = compiler.diagnostics().iter().map(|d| d.render()).collect();
    assert_eq!(result.is_err(), !texts.is_empty(), "{:?}", source);
    texts
}

const RETURN: u8 = 0;
const CONSTANT: u8 = 1;
const NEGATE: u8 = 2;
const ADD: u8 = 3;
const SUBTRACT: u8 = 4;
const MULTIPLY: u8 = 5;
const DIVIDE: u8 = 6;
const NIL: u8 = 7;
const TRUE: u8 = 8;
const FALSE: u8 = 9;
const NOT: u8 = 10;
const EQUAL: u8 = 11;
const GREATER: u8 = 12;
const LESS: u8 = 13;

#[test]
fn test_number_literals_of_a_source() {
    assert_eq!(number_literals("".to_string()), Vec::<String>::new());
    assert_eq!(number_literals("true == nil".to_string()), Vec::<String>::new());
    assert_eq!(number_literals("1 + 2.5 * (3)".to_string()), vec!["1", "2.5", "3"]);
    // every number token counts, whether the compiler comes to it or not
    assert_eq!(number_literals("1 2 ~ 3. // 4\n5".to_string()), vec!["1", "2", "3", "5"]);
    assert_eq!(number_literals("\"6\" 7".to_string()), vec!["7"]);
}

#[test]
fn test_multiply_is_on_the_line_of_its_right_operand() {
    let chunk = compile("5\n*\n6").expect("a chunk");
    assert_eq!(code_of(&chunk), vec![CONSTANT, 0, CONSTANT, 1, MULTIPLY, RETURN]);
    assert_eq!(lines_of(&chunk), vec![1, 1, 3, 3, 3, 3]);
}

#[test]
fn test_lines_follow_the_previous_token() {
    let chunk = compile("-\n(\n1\n+\n2\n)\n").expect("a chunk");
    assert_eq!(code_of(&chunk), vec![CONSTANT, 0, CONSTANT, 1, ADD, NEGATE, RETURN]);
    // `Negate` is emitted behind `)` on line 6, `Return` behind the end on line 7
    assert_eq!(lines_of(&chunk), vec![3, 3, 5, 5, 5, 6, 7]);
}

#[test]
fn test_chunk_ends_with_return_and_has_a_line_for_each_byte() {
    for source in ["1", "nil", "!true", "1 + 2 * 3", "((((4))))", "1 < 2 == 3 >= 4", "-\n-\n1"] {
        let chunk = compile(source).expect("a chunk");
        let code = code_of(&chunk);
        assert_eq!(code.last(), Some(&RETURN), "{:?}", source);
        assert_eq!(code.iter().filter(|byte| **byte == RETURN).count() >= 1, true);
        assert_eq!(lines_of(&chunk).len(), code.len(), "{:?}", source);
    }
}

#[test]
fn test_constants_are_interned_in_order() {
    let chunk = compile("3 + 1 + 2 + 1").expect("a chunk");
    // the same number twice is two constants
    assert_eq!(constants_of(&chunk), vec![3.0, 1.0, 2.0, 1.0]);
    assert_eq!(
        code_of(&chunk),
        vec![CONSTANT, 0, CONSTANT, 1, ADD, CONSTANT, 2, ADD, CONSTANT, 3, ADD, RETURN]
    );

    let chunk = compile("0.5 * (2.25 - 10)").expect("a chunk");
    assert_eq!(constants_of(&chunk), vec![0.5, 2.25, 10.0]);
}

#[test]
fn test_the_nth_constant_instruction_loads_the_nth_constant() {
    let source = (0..256).map(|i| i.to_string()).collect::<Vec<_>>().join(" + ");
    let chunk = compile(&source).expect("a chunk");
    assert_eq!(chunk.constants().len(), 256);
    let code = code_of(&chunk);
    let mut offset = 0;
    let mut loaded = 0;
    while offset < code.len() {
        if code[offset] == CONSTANT {
            assert_eq!(code[offset + 1] as usize, loaded);
            assert_eq!(chunk.constants().get(loaded), Value::Number((loaded as f64).to_bits()));
            loaded += 1;
            offset += 2;
        } else {
            offset += 1;
        }
    }
    assert_eq!(loaded, 256);
}

#[test]
fn test_compile_is_deterministic() {
    for source in ["1 + 2", "(-1 + 2) * 3 - -4", "!(5 - 4 > 3 * 2 == !nil)", "1 +", "5\n*\n6"] {
        let once = compile(source);
        let again = compile(source);
        assert_eq!(once, again, "{:?}", source);
        if let (Ok(a), Ok(b)) = (once, again) {
            assert_eq!(code_of(&a), code_of(&b));
            assert_eq!(lines_of(&a), lines_of(&b));
        }
    }
}

#[test]
fn test_binary_operators_are_left_associative() {
    let chunk = compile("1 - 2 - 3").expect("a chunk");
    assert_eq!(
        code_of(&chunk),
        vec![CONSTANT, 0, CONSTANT, 1, SUBTRACT, CONSTANT, 2, SUBTRACT, RETURN]
    );
    let chunk = compile("8 / 4 / 2").expect("a chunk");
    assert_eq!(
        code_of(&chunk),
        vec![CONSTANT, 0, CONSTANT, 1, DIVIDE, CONSTANT, 2, DIVIDE, RETURN]
    );
    let chunk = compile("1 == 2 == 3").expect("a chunk");
    assert_eq!(
        code_of(&chunk),
        vec![CONSTANT, 0, CONSTANT, 1, EQUAL, CONSTANT, 2, EQUAL, RETURN]
    );
}

#[test]
fn test_precedence_ladder() {
    // equality < comparison < term < factor < unary
    let chunk = compile("1 == 2 < 3 + 4 * -5").expect("a chunk");
    assert_eq!(
        code_of(&chunk),
        vec![
            CONSTANT, 0, CONSTANT, 1, CONSTANT, 2, CONSTANT, 3, CONSTANT, 4, NEGATE, MULTIPLY, ADD,
            LESS, EQUAL, RETURN
        ]
    );
    let chunk = compile("-1 * 2 + 3 > 4 != true").expect("a chunk");
    assert_eq!(
        code_of(&chunk),
        vec![
            CONSTANT, 0, NEGATE, CONSTANT, 1, MULTIPLY, CONSTANT, 2, ADD, CONSTANT, 3, GREATER,
            TRUE, EQUAL, NOT, RETURN
        ]
    );
    // a prefix operator takes the operand behind it alone
    let chunk = compile("!true == false").expect("a chunk");
    assert_eq!(code_of(&chunk), vec![TRUE, NOT, FALSE, EQUAL, RETURN]);
    let chunk = compile("!!nil").expect("a chunk");
    assert_eq!(code_of(&chunk), vec![NIL, NOT, NOT, RETURN]);
    let chunk = compile("--1").expect("a chunk");
    assert_eq!(code_of(&chunk), vec![CONSTANT, 0, NEGATE, NEGATE, RETURN]);
    let chunk = compile("-(1 + 2)").expect("a chunk");
    assert_eq!(code_of(&chunk), vec![CONSTANT, 0, CONSTANT, 1, ADD, NEGATE, RETURN]);
}

#[test]
fn test_desugared_comparisons() {
    assert_eq!(code_of(&compile("nil != nil").unwrap()), vec![NIL, NIL, EQUAL, NOT, RETURN]);
    assert_eq!(code_of(&compile("nil >= nil").unwrap()), vec![NIL, NIL, LESS, NOT, RETURN]);
    assert_eq!(code_of(&compile("nil <= nil").unwrap()), vec![NIL, NIL, GREATER, NOT, RETURN]);
}

#[test]
fn test_reports() {
    assert_eq!(reports("1 + 2"), Vec::<String>::new());
    assert_eq!(reports("1 +"), vec!["[line 1] Error at end: Expect expression."]);
    assert_eq!(reports(""), vec!["[line 1] Error at end: Expect expression."]);
    assert_eq!(reports("\n\n"), vec!["[line 3] Error at end: Expect expression."]);
    assert_eq!(reports("(1"), vec!["[line 1] Error at end: Expect ')' after expression."]);
    assert_eq!(reports("(1 2"), vec!["[line 1] Error at '2': Expect ')' after expression."]);
    assert_eq!(reports(")"), vec!["[line 1] Error at ')': Expect expression."]);
    assert_eq!(reports("1 2"), vec!["[line 1] Error at '2': Expect end of expression."]);
    assert_eq!(reports("1\n+\n*"), vec!["[line 3] Error at '*': Expect expression."]);
    assert_eq!(reports("\"text\""), vec!["[line 1] Error at '\"text\"': Expect expression."]);
    assert_eq!(reports("x"), vec!["[line 1] Error at 'x': Expect expression."]);
    assert_eq!(reports("1 = 2"), vec!["[line 1] Error at '=': Expect end of expression."]);
    assert_eq!(reports("var"), vec!["[line 1] Error at 'var': Expect expression."]);
    // an error of the scanner is reported with its own message, and without a place
    assert_eq!(reports("~"), vec!["[line 1] Error: Unexpected character."]);
    assert_eq!(reports("1 +\n\"open"), vec!["[line 2] Error: Unterminated string."]);
    assert_eq!(reports("12345678901\n\n\n\n\n\n\n\n\n\n\n@"), vec![
        "[line 12] Error: Unexpected character."
    ]);
}

#[test]
fn test_one_report_for_one_mistake() {
    // what follows from the first error is not reported
    assert_eq!(reports("~ ~ ~"), vec!["[line 1] Error: Unexpected character."]);
    assert_eq!(reports("(+ ) ) )"), vec!["[line 1] Error at '+': Expect expression."]);
    assert_eq!(reports("1 + * 2 3 ("), vec!["[line 1] Error at '*': Expect expression."]);
}

#[test]
fn test_a_source_with_errors_gives_no_chunk() {
    for source in ["", "1 +", "(1", ")", "1 2", "~", "\"a\"", "1 + ~ 2", "( ( (", "nil nil"] {
        assert_eq!(compile(source), Err(()), "{:?}", source);
    }
    // an error token alone is an error, though what is left is an expression
    assert_eq!(compile("1 ~"), Err(()));
}

#[test]
fn test_diagnostics_hold_the_token() {
    let mut compiler = Compiler::new("1 +\n  nil nil".to_string());
    assert_eq!(compiler.compile(&numbers("1 +\n  nil nil")), Err(()));
    let diagnostics = compiler.diagnostics();
    assert_eq!(diagnostics.len(), 1);
    assert_eq!(diagnostics[0].token.kind, loxvm::scanner::TokenKind::Nil);
    assert_eq!(diagnostics[0].token.lexeme, "nil");
    assert_eq!(diagnostics[0].token.line, 2);
    assert_eq!(diagnostics[0].message, "Expect end of expression.");
}

#[test]
fn test_too_many_constants() {
    let source = (0..257).map(|i| i.to_string()).collect::<Vec<_>>().join(" + ");
    let mut compiler = Compiler::new(source.clone());
    assert_eq!(compiler.try_compile(&numbers(&source)), Err(Ice::TooManyConstants));
    assert_eq!(compiler.ice(), Some(Ice::TooManyConstants));

    // 256 constants are not too many
    let source = (0..256).map(|i| i.to_string()).collect::<Vec<_>>().join(" + ");
    let mut compiler = Compiler::new(source.clone());
    assert!(matches!(compiler.try_compile(&numbers(&source)), Ok(Ok(_))));
    assert_eq!(compiler.ice(), None);

    // the numbers that the compiler does not come to do not count
    let source = (0..300).map(|i| i.to_string()).collect::<Vec<_>>().join(" ");
    let mut compiler = Compiler::new(source.clone());
    assert_eq!(compiler.try_compile(&numbers(&source)), Ok(Err(())));
}

#[test]
fn test_number_without_value() {
    let mut compiler = Compiler::new("1 + 2".to_string());
    assert_eq!(compiler.try_compile(&vec![1.0f64.to_bits()]), Err(Ice::NumberWithoutValue));

    let mut compiler = Compiler::new("1 + 2".to_string());
    assert_eq!(compiler.try_compile(&vec![]), Err(Ice::NumberWithoutValue));

    // values beyond the literals are not looked at
    let mut compiler = Compiler::new("1 + 2".to_string());
    let chunk = compiler
        .try_compile(&vec![1.0f64.to_bits(), 2.0f64.to_bits(), 3.0f64.to_bits()])
        .expect("no error of the compiler")
        .expect("a chunk");
    assert_eq!(constants_of(&chunk), vec![1.0, 2.0]);
}

#[test]
fn test_try_compile_agrees_with_compile() {
    for source in ["1 + 2", "!(5 - 4 > 3 * 2 == !nil)", "1 +", "(", "nil"] {
        let mut compiler = Compiler::new(source.to_string());
        let tried = compiler.try_compile(&numbers(source)).expect("no error of the compiler");
        assert_eq!(tried, compile(source), "{:?}", source);
    }
}

#[test]
fn test_the_values_are_taken_as_given() {
    // the compiler reads no number itself: the constant is the value given for the literal
    let mut compiler = Compiler::new("1".to_string());
    let chunk = compiler.compile(&vec![0xdead_beef_u64]).expect("a chunk");
    assert_eq!(chunk.constants().get(0), Value::Number(0xdead_beef));
}

use loxvm::compiler::Precedence;

#[test]
fn test_precedence_ladder_steps() {
    let ladder = [
        Precedence::Lowest,
        Precedence::Assignment,
        Precedence::Or,
        Precedence::And,
        Precedence::Equality,
        Precedence::Comparison,
        Precedence::Term,
        Precedence::Factor,
        Precedence::Unary,
        Precedence::Call,
        Precedence::Primary,
    ];
    for (rank, level) in ladder.iter().enumerate() {
        assert_eq!(level.rank() as usize, rank);
        if rank + 1 < ladder.len() {
            assert_eq!(level.plus_one(), ladder[rank + 1]);
        }
    }
    // nothing is tighter than the tightest
    assert_eq!(Precedence::Primary.plus_one(), Precedence::Primary);
}
