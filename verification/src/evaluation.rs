//! What an expression means, and that the machine computes it: the run of
//! the code of an expression, with a host that does the arithmetic, ends with
//! the value of the expression, or with its runtime error.
use vstd::prelude::*;
use crate::chunk::{ChunkView, OpCode, opcode_of};
use crate::compiler::{
    Precedence, compilation, fresh, healthy, initial, lemma_compilation_makes_program,
    number_lexemes, pool_follows, precedence_of,
};
use crate::grammar::{
    Expr, code_of, fits, kinds_from, lemma_expression_compiles, literal_count, operator_code,
    tokens_of,
};
use crate::scanner::TokenKind;
use crate::value::{Value, negated, number_lt, values_equal};
use crate::vm::{Arithmetic, Effect, InterpretError, Machine, effect, ended, run_with};

verus! {

/// What a binary operator makes of the values of its two operands. The
/// comparisons `>=` and `<=` are the negations of `<` and `>`, so that they
/// hold as soon as an operand is a NaN; `host` does the arithmetic.
pub open spec fn applied(
    operator: TokenKind,
    a: Value,
    b: Value,
    host: spec_fn(Arithmetic) -> u64,
) -> Result<Value, Seq<char>> {
    if operator == TokenKind::EqualEqual {
        Ok(Value::Bool(values_equal(a, b)))
    } else if operator == TokenKind::BangEqual {
        Ok(Value::Bool(!values_equal(a, b)))
    } else {
        match (a, b) {
            (Value::Number(x), Value::Number(y)) => Ok(
                match operator {
                    TokenKind::Plus => Value::Number(
                        host(Arithmetic { op: OpCode::Add, left: x, right: y }),
                    ),
                    TokenKind::Minus => Value::Number(
                        host(Arithmetic { op: OpCode::Subtract, left: x, right: y }),
                    ),
                    TokenKind::Star => Value::Number(
                        host(Arithmetic { op: OpCode::Multiply, left: x, right: y }),
                    ),
                    TokenKind::Slash => Value::Number(
                        host(Arithmetic { op: OpCode::Divide, left: x, right: y }),
                    ),
                    TokenKind::Greater => Value::Bool(number_lt(y, x)),
                    TokenKind::GreaterEqual => Value::Bool(!number_lt(x, y)),
                    TokenKind::Less => Value::Bool(number_lt(x, y)),
                    _ => Value::Bool(!number_lt(y, x)),
                },
            ),
            _ => Err("Operands must be numbers."@),
        }
    }
}

/// The value of an expression, or the message of the runtime error that
/// its evaluation ends with. `numbers` holds the values of the number
/// literals, of which `first` stand before the expression; operands are
/// evaluated from left to right, and the first error ends the evaluation.
pub open spec fn value_of(
    e: Expr,
    numbers: Seq<u64>,
    first: nat,
    host: spec_fn(Arithmetic) -> u64,
) -> Result<Value, Seq<char>>
    decreases e,
{
    match e {
        Expr::Number => Ok(Value::Number(numbers[first as int])),
        Expr::Nil => Ok(Value::Nil),
        Expr::True => Ok(Value::Bool(true)),
        Expr::False => Ok(Value::Bool(false)),
        Expr::Group(inner) => value_of(*inner, numbers, first, host),
        Expr::Negate(operand) => match value_of(*operand, numbers, first, host) {
            Ok(Value::Number(n)) => Ok(Value::Number(negated(n))),
            Ok(_) => Err("Operand must be a number."@),
            Err(message) => Err(message),
        },
        Expr::Not(operand) => match value_of(*operand, numbers, first, host) {
            Ok(value) => Ok(Value::Bool(value.spec_is_falsey())),
            Err(message) => Err(message),
        },
        Expr::Binary(operator, left, right) => match value_of(*left, numbers, first, host) {
            Ok(a) => match value_of(*right, numbers, first + literal_count(*left), host) {
                Ok(b) => applied(operator, a, b, host),
                Err(message) => Err(message),
            },
            Err(message) => Err(message),
        },
    }
}

/// Whether `code` holds the bytes of `part` from offset `at` on.
pub open spec fn holds(code: Seq<u8>, at: int, part: Seq<u8>) -> bool {
    &&& 0 <= at
    &&& at + part.len() <= code.len()
    &&& forall|i: int| 0 <= i < part.len() ==> code[at + i] == #[trigger] part[i]
}

/// Code that holds two parts, one behind the other, holds each of them.
proof fn lemma_holds_both(code: Seq<u8>, at: int, front: Seq<u8>, back: Seq<u8>)
    requires
        holds(code, at, front + back),
    ensures
        holds(code, at, front),
        holds(code, at + front.len(), back),
{
    let all = front + back;
    assert forall|i: int| 0 <= i < front.len() implies code[at + i] == #[trigger] front[i] by {
        assert(all[i] == front[i]);
    }
    assert forall|i: int| 0 <= i < back.len() implies code[at + front.len() + i]
        == #[trigger] back[i] by {
        assert(all[front.len() + i] == back[i]);
    }
}

/// Whether the constants of the chunk, from `first` on, are the values of
/// the number literals of `e`, and each byte of the code has its line.
pub open spec fn provides(chunk: ChunkView, e: Expr, numbers: Seq<u64>, first: nat) -> bool {
    &&& chunk.code.len() == chunk.lines.len()
    &&& first + literal_count(e) <= chunk.constants.len() <= 256
    &&& forall|k: int|
        first <= k < first + literal_count(e) ==> #[trigger] chunk.constants[k] == Value::Number(
            numbers[k],
        )
}

/// Whether a run from `m` goes as the evaluation of an expression says: to
/// the machine behind the code of the expression, with its value pushed, or
/// into the runtime error with the message of the evaluation.
pub open spec fn follows(
    chunk: ChunkView,
    m: Machine,
    width: nat,
    value: Result<Value, Seq<char>>,
    host: spec_fn(Arithmetic) -> u64,
) -> bool {
    match value {
        Ok(v) => run_with(chunk, m, host) == run_with(
            chunk,
            Machine { ip: m.ip + width, stack: m.stack.push(v) },
            host,
        ),
        Err(message) => run_with(chunk, m, host) is Failed && run_with(
            chunk,
            m,
            host,
        )->Failed_0.message == message,
    }
}

/// One instruction without operand, where the machine can run it.
proof fn lemma_one_instruction(chunk: ChunkView, m: Machine, op: OpCode)
    requires
        chunk.code.len() == chunk.lines.len(),
        holds(chunk.code, m.ip, seq![op.spec_byte()]),
    ensures
        opcode_of(chunk.code[m.ip]) == Some(op),
        0 <= m.ip < chunk.code.len(),
{
    assert(seq![op.spec_byte()][0] == op.spec_byte());
    assert(chunk.code[m.ip + 0] == op.spec_byte());
}

/// The machine computes what the expression means: the run of the code of
/// an expression goes as its evaluation says.
pub proof fn lemma_code_evaluates(
    chunk: ChunkView,
    e: Expr,
    min: u8,
    numbers: Seq<u64>,
    first: nat,
    m: Machine,
    host: spec_fn(Arithmetic) -> u64,
)
    requires
        fits(e, min),
        provides(chunk, e, numbers, first),
        holds(chunk.code, m.ip, code_of(e, first)),
    ensures
        follows(chunk, m, code_of(e, first).len(), value_of(e, numbers, first, host), host),
    decreases e,
{
    let code = code_of(e, first);
    match e {
        Expr::Number => {
            assert(code[0] == OpCode::Constant.spec_byte() && code[1] == first as u8);
            assert(chunk.code[m.ip + 0] == code[0]);
            assert(chunk.code[m.ip + 1] == code[1]);
            assert(chunk.constants[first as int] == Value::Number(numbers[first as int]));
        },
        Expr::Nil => {
            lemma_one_instruction(chunk, m, OpCode::Nil);
        },
        Expr::True => {
            lemma_one_instruction(chunk, m, OpCode::True);
        },
        Expr::False => {
            lemma_one_instruction(chunk, m, OpCode::False);
        },
        Expr::Group(inner) => {
            lemma_code_evaluates(
                chunk,
                *inner,
                Precedence::Assignment.spec_rank(),
                numbers,
                first,
                m,
                host,
            );
        },
        Expr::Negate(operand) => {
            let front = code_of(*operand, first);
            lemma_holds_both(chunk.code, m.ip, front, seq![OpCode::Negate.spec_byte()]);
            lemma_code_evaluates(
                chunk,
                *operand,
                Precedence::Unary.spec_rank(),
                numbers,
                first,
                m,
                host,
            );
            match value_of(*operand, numbers, first, host) {
                Ok(v) => {
                    let after = Machine { ip: m.ip + front.len(), stack: m.stack.push(v) };
                    lemma_one_instruction(chunk, after, OpCode::Negate);
                    match v {
                        Value::Number(n) => {
                            assert(after.replaced(Value::Number(negated(n))).stack =~= m.stack.push(
                                Value::Number(negated(n)),
                            ));
                        },
                        _ => {},
                    }
                },
                Err(_) => {},
            }
        },
        Expr::Not(operand) => {
            let front = code_of(*operand, first);
            lemma_holds_both(chunk.code, m.ip, front, seq![OpCode::Not.spec_byte()]);
            lemma_code_evaluates(
                chunk,
                *operand,
                Precedence::Unary.spec_rank(),
                numbers,
                first,
                m,
                host,
            );
            match value_of(*operand, numbers, first, host) {
                Ok(v) => {
                    let after = Machine { ip: m.ip + front.len(), stack: m.stack.push(v) };
                    lemma_one_instruction(chunk, after, OpCode::Not);
                    assert(after.replaced(Value::Bool(v.spec_is_falsey())).stack =~= m.stack.push(
                        Value::Bool(v.spec_is_falsey()),
                    ));
                },
                Err(_) => {},
            }
        },
        Expr::Binary(operator, left, right) => {
            let front = code_of(*left, first);
            let middle = code_of(*right, first + literal_count(*left));
            let back = operator_code(operator);
            lemma_holds_both(chunk.code, m.ip, front + middle, back);
            lemma_holds_both(chunk.code, m.ip, front, middle);
            lemma_code_evaluates(
                chunk,
                *left,
                precedence_of(operator).spec_rank(),
                numbers,
                first,
                m,
                host,
            );
            match value_of(*left, numbers, first, host) {
                Ok(a) => {
                    let one = Machine { ip: m.ip + front.len(), stack: m.stack.push(a) };
                    lemma_code_evaluates(
                        chunk,
                        *right,
                        (precedence_of(operator).spec_rank() + 1) as u8,
                        numbers,
                        first + literal_count(*left),
                        one,
                        host,
                    );
                    match value_of(*right, numbers, first + literal_count(*left), host) {
                        Ok(b) => {
                            let two = Machine { ip: one.ip + middle.len(), stack: one.stack.push(b) };
                            lemma_operator_evaluates(chunk, operator, m.stack, a, b, two, host);
                        },
                        Err(_) => {},
                    }
                },
                Err(_) => {},
            }
        },
    }
}

/// The first instruction of a binary operator does what the operator
/// makes of the two values on top of the stack, but for the negation that
/// may follow it.
proof fn lemma_operator_starts(
    chunk: ChunkView,
    op: OpCode,
    below: Seq<Value>,
    a: Value,
    b: Value,
    m: Machine,
    host: spec_fn(Arithmetic) -> u64,
)
    requires
        chunk.code.len() == chunk.lines.len(),
        0 <= m.ip < chunk.code.len(),
        opcode_of(chunk.code[m.ip]) == Some(op),
        op == OpCode::Add || op == OpCode::Subtract || op == OpCode::Multiply || op
            == OpCode::Divide || op == OpCode::Equal || op == OpCode::Greater || op
            == OpCode::Less,
        m.stack == below.push(a).push(b),
    ensures
        op == OpCode::Equal ==> run_with(chunk, m, host) == run_with(
            chunk,
            Machine { ip: m.ip + 1, stack: below.push(Value::Bool(values_equal(a, b))) },
            host,
        ),
        op != OpCode::Equal && !(a is Number && b is Number) ==> run_with(chunk, m, host)
            is Failed && run_with(chunk, m, host)->Failed_0.message
            == "Operands must be numbers."@,
        op == OpCode::Greater && a is Number && b is Number ==> run_with(chunk, m, host)
            == run_with(
            chunk,
            Machine {
                ip: m.ip + 1,
                stack: below.push(Value::Bool(number_lt(b->Number_0, a->Number_0))),
            },
            host,
        ),
        op == OpCode::Less && a is Number && b is Number ==> run_with(chunk, m, host) == run_with(
            chunk,
            Machine {
                ip: m.ip + 1,
                stack: below.push(Value::Bool(number_lt(a->Number_0, b->Number_0))),
            },
            host,
        ),
        op != OpCode::Equal && op != OpCode::Greater && op != OpCode::Less && a is Number && b
            is Number ==> run_with(chunk, m, host) == run_with(
            chunk,
            Machine {
                ip: m.ip + 1,
                stack: below.push(
                    Value::Number(
                        host(Arithmetic { op, left: a->Number_0, right: b->Number_0 }),
                    ),
                ),
            },
            host,
        ),
{
    assert(m.top() == b);
    assert(m.below() == a);
    assert(m.stack.drop_last().drop_last() =~= below);
}

/// `Not` puts the negation in the place of a boolean on top of the stack.
proof fn lemma_not_negates(
    chunk: ChunkView,
    below: Seq<Value>,
    truth: bool,
    m: Machine,
    host: spec_fn(Arithmetic) -> u64,
)
    requires
        chunk.code.len() == chunk.lines.len(),
        0 <= m.ip < chunk.code.len(),
        opcode_of(chunk.code[m.ip]) == Some(OpCode::Not),
        m.stack == below.push(Value::Bool(truth)),
    ensures
        run_with(chunk, m, host) == run_with(
            chunk,
            Machine { ip: m.ip + 1, stack: below.push(Value::Bool(!truth)) },
            host,
        ),
{
    assert(m.top() == Value::Bool(truth));
    assert(m.stack.drop_last() =~= below);
}

/// The instructions of a binary operator compute what the operator makes
/// of the two values on top of the stack.
proof fn lemma_operator_evaluates(
    chunk: ChunkView,
    operator: TokenKind,
    below: Seq<Value>,
    a: Value,
    b: Value,
    m: Machine,
    host: spec_fn(Arithmetic) -> u64,
)
    requires
        chunk.code.len() == chunk.lines.len(),
        holds(chunk.code, m.ip, operator_code(operator)),
        precedence_of(operator) != Precedence::Lowest,
        m.stack == below.push(a).push(b),
    ensures
        match applied(operator, a, b, host) {
            Ok(v) => run_with(chunk, m, host) == run_with(
                chunk,
                Machine { ip: m.ip + operator_code(operator).len(), stack: below.push(v) },
                host,
            ),
            Err(message) => run_with(chunk, m, host) is Failed && run_with(
                chunk,
                m,
                host,
            )->Failed_0.message == message,
        },
{
    let code = operator_code(operator);
    let op = opcode_of(code[0])->0;
    assert(chunk.code[m.ip + 0] == code[0]);
    lemma_operator_starts(chunk, op, below, a, b, m, host);
    if code.len() == 2 {
        assert(chunk.code[m.ip + 1] == code[1]);
        if operator == TokenKind::BangEqual {
            lemma_not_negates(
                chunk,
                below,
                values_equal(a, b),
                Machine { ip: m.ip + 1, stack: below.push(Value::Bool(values_equal(a, b))) },
                host,
            );
        } else if a is Number && b is Number {
            let truth = if operator == TokenKind::GreaterEqual {
                number_lt(a->Number_0, b->Number_0)
            } else {
                number_lt(b->Number_0, a->Number_0)
            };
            lemma_not_negates(
                chunk,
                below,
                truth,
                Machine { ip: m.ip + 1, stack: below.push(Value::Bool(truth)) },
                host,
            );
        }
    }
}

/// A program computes the value of its expression: where the tokens of a
/// source are those of an expression `e` that is written without
/// parentheses that it would need, and a value is given for each of its
/// number literals, of which there are 256 at most, the run of the compiled
/// chunk, with a host that does the arithmetic, ends with the value of `e`,
/// or with the runtime error of its evaluation.
pub proof fn lemma_program_evaluates(
    source: Seq<u8>,
    numbers: Seq<u64>,
    e: Expr,
    host: spec_fn(Arithmetic) -> u64,
)
    requires
        fits(e, Precedence::Assignment.spec_rank()),
        kinds_from(source, 0) == tokens_of(e) + seq![TokenKind::EndOfFile],
        number_lexemes(source, 0).len() <= numbers.len(),
        number_lexemes(source, 0).len() <= 256,
    ensures
        healthy(compilation(initial(source), numbers).parser),
        match value_of(e, numbers, 0, host) {
            Ok(value) => run_with(
                compilation(initial(source), numbers).chunk,
                Machine { ip: 0, stack: Seq::empty() },
                host,
            ) == Effect::Done(value),
            Err(message) => {
                let end = run_with(
                    compilation(initial(source), numbers).chunk,
                    Machine { ip: 0, stack: Seq::empty() },
                    host,
                );
                end is Failed && end->Failed_0.message == message
            },
        },
{
    let chunk = compilation(initial(source), numbers).chunk;
    let start = Machine { ip: 0, stack: Seq::empty() };
    let code = code_of(e, 0);
    lemma_expression_compiles(source, numbers, e);
    assert(fresh(initial(source).parser) == initial(source));
    lemma_compilation_makes_program(initial(source).parser, numbers);
    assert forall|i: int| 0 <= i < code.len() implies chunk.code[0 + i] == #[trigger] code[i] by {
        assert((code + seq![OpCode::Return.spec_byte()])[i] == code[i]);
    }
    lemma_code_evaluates(chunk, e, Precedence::Assignment.spec_rank(), numbers, 0, start, host);
    match value_of(e, numbers, 0, host) {
        Ok(value) => {
            let last = Machine { ip: code.len() as int, stack: start.stack.push(value) };
            assert(chunk.code[code.len() as int] == OpCode::Return.spec_byte());
            assert(last.top() == value);
        },
        Err(_) => {},
    }
}

/// What the interpreter gives for a source that is an expression: the
/// value of the expression, or `RuntimeError` where its evaluation ends
/// with an error. This is what `VM::interpret` returns for the source, with a
/// host that does the arithmetic as `host` says.
pub proof fn lemma_interpreter_evaluates(
    source: Seq<u8>,
    numbers: Seq<u64>,
    e: Expr,
    host: spec_fn(Arithmetic) -> u64,
)
    requires
        fits(e, Precedence::Assignment.spec_rank()),
        kinds_from(source, 0) == tokens_of(e) + seq![TokenKind::EndOfFile],
        number_lexemes(source, 0).len() <= numbers.len(),
        number_lexemes(source, 0).len() <= 256,
    ensures
        healthy(compilation(initial(source), numbers).parser),
        ended(
            run_with(
                compilation(initial(source), numbers).chunk,
                Machine { ip: 0, stack: Seq::empty() },
                host,
            ),
        ) == match value_of(e, numbers, 0, host) {
            Ok(value) => Ok::<Option<Value>, InterpretError>(Some(value)),
            Err(_) => Err(InterpretError::RuntimeError),
        },
{
    lemma_program_evaluates(source, numbers, e, host);
}

} // verus!
