//! The compiler: a precedence-climbing parser that emits bytecode while it
//! reads, without building a tree.
//!
//! What compiling means is given first, as functions from one state of a
//! compilation to the next; the compiler itself follows, and each of its
//! steps is proved to be one of those functions.
use vstd::prelude::*;
use crate::chunk::{Chunk, ChunkView, OpCode, Shape, is_program, lemma_walk_append, walk};
use crate::scanner::{
    Scanner, Token, TokenKind, TokenView, after_blanks, end_at, kind_at, lexeme_at,
    lemma_after_blanks_bounds, lemma_token_bounds, source_bytes, token_at,
};
use crate::text::{decimal, decimal_text};
use crate::value::Value;
use vstd::string::StringExecFns;

verus! {

/// How tightly an operator binds, from loosest to tightest.
#[derive(Debug, PartialEq, Eq, Clone, Copy, Structural)]
pub enum Precedence {
    Lowest,
    Assignment,  // =
    Or,  // or
    And,  // and
    Equality,  // == !=
    Comparison,  // < > <= >=
    Term,  // + -
    Factor,  // * /
    Unary,  // ! -
    Call,  // . ()
    Primary,
}

impl Precedence {
    /// The place of this level on the ladder, from 0.
    pub open spec fn spec_rank(self) -> u8 {
        match self {
            Precedence::Lowest => 0,
            Precedence::Assignment => 1,
            Precedence::Or => 2,
            Precedence::And => 3,
            Precedence::Equality => 4,
            Precedence::Comparison => 5,
            Precedence::Term => 6,
            Precedence::Factor => 7,
            Precedence::Unary => 8,
            Precedence::Call => 9,
            Precedence::Primary => 10,
        }
    }

    #[verifier::when_used_as_spec(spec_rank)]
    pub fn rank(self) -> (r: u8)
        ensures
            r == self.spec_rank(),
    {
        match self {
            Precedence::Lowest => 0,
            Precedence::Assignment => 1,
            Precedence::Or => 2,
            Precedence::And => 3,
            Precedence::Equality => 4,
            Precedence::Comparison => 5,
            Precedence::Term => 6,
            Precedence::Factor => 7,
            Precedence::Unary => 8,
            Precedence::Call => 9,
            Precedence::Primary => 10,
        }
    }

    /// The next tighter level; `Primary` is the tightest and stays.
    pub open spec fn spec_plus_one(&self) -> Precedence {
        match self {
            Precedence::Lowest => Precedence::Assignment,
            Precedence::Assignment => Precedence::Or,
            Precedence::Or => Precedence::And,
            Precedence::And => Precedence::Equality,
            Precedence::Equality => Precedence::Comparison,
            Precedence::Comparison => Precedence::Term,
            Precedence::Term => Precedence::Factor,
            Precedence::Factor => Precedence::Unary,
            Precedence::Unary => Precedence::Call,
            Precedence::Call => Precedence::Primary,
            Precedence::Primary => Precedence::Primary,
        }
    }

    /// The next tighter level: one rank up, but for `Primary`.
    #[verifier::when_used_as_spec(spec_plus_one)]
    pub fn plus_one(&self) -> (r: Precedence)
        ensures
            r == self.spec_plus_one(),
            r.rank() == if self.rank() < 10 {
                self.rank() + 1
            } else {
                10
            },
    {
        match self {
            Precedence::Lowest => Precedence::Assignment,
            Precedence::Assignment => Precedence::Or,
            Precedence::Or => Precedence::And,
            Precedence::And => Precedence::Equality,
            Precedence::Equality => Precedence::Comparison,
            Precedence::Comparison => Precedence::Term,
            Precedence::Term => Precedence::Factor,
            Precedence::Factor => Precedence::Unary,
            Precedence::Unary => Precedence::Call,
            Precedence::Call => Precedence::Primary,
            Precedence::Primary => {
                // nothing higher than Primary
                Precedence::Primary
            },
        }
    }
}

/// The precedence of a token where it stands between two operands; `Lowest`
/// for a token that is no binary operator.
pub open spec fn precedence_of(kind: TokenKind) -> Precedence {
    match kind {
        TokenKind::Minus | TokenKind::Plus => Precedence::Term,
        TokenKind::Slash | TokenKind::Star => Precedence::Factor,
        TokenKind::BangEqual | TokenKind::EqualEqual => Precedence::Equality,
        TokenKind::Greater | TokenKind::GreaterEqual | TokenKind::Less | TokenKind::LessEqual =>
            Precedence::Comparison,
        _ => Precedence::Lowest,
    }
}

/// An error of the compiler itself, on which no chunk can be made.
#[derive(Debug, PartialEq, Eq, Clone, Copy, Structural)]
pub enum Ice {
    /// The source holds a number literal beyond the values that were given.
    NumberWithoutValue,
    /// A chunk holds 256 constants at most.
    TooManyConstants,
}

/// What a diagnostic is: the token at which the error was found, and the
/// message.
pub struct DiagnosticView {
    pub token: TokenView,
    pub message: Seq<char>,
}

/// One reported error.
#[derive(Debug)]
pub struct Diagnostic {
    pub token: Token,
    pub message: String,
}

impl View for Diagnostic {
    type V = DiagnosticView;

    open spec fn view(&self) -> DiagnosticView {
        DiagnosticView { token: self.token@, message: self.message@ }
    }
}

/// Where a diagnostic says that the error is: at the end of the source,
/// nowhere for an error of scanning, whose message says it all, or at the
/// text of the token.
pub open spec fn place_text(token: TokenView) -> Seq<char> {
    match token.kind {
        TokenKind::EndOfFile => " at end"@,
        TokenKind::Error => Seq::empty(),
        _ => " at '"@ + token.lexeme + "'"@,
    }
}

/// The line of text that reports a diagnostic: `[line 3] Error at 'x':
/// Expect expression.`
pub open spec fn diagnostic_text(d: DiagnosticView) -> Seq<char> {
    "[line "@ + decimal_text(d.token.line) + "] Error"@ + place_text(d.token) + ": "@ + d.message
}

impl Diagnostic {
    /// The line of text that reports this error.
    pub fn render(&self) -> (text: String)
        ensures
            text@ == diagnostic_text(self@),
    {
        let mut text = "[line ".to_owned();
        text.append(decimal(self.token.line).as_str());
        text.append("] Error");
        match self.token.kind {
            TokenKind::EndOfFile => {
                text.append(" at end");
            },
            TokenKind::Error => {
                assert(text@ + Seq::<char>::empty() =~= text@);
            },
            _ => {
                text.append(" at '");
                text.append(self.token.lexeme.as_str());
                text.append("'");
                assert("[line "@ + decimal_text(self@.token.line) + "] Error"@ + " at '"@
                    + self.token.lexeme@ + "'"@ =~= "[line "@ + decimal_text(self@.token.line)
                    + "] Error"@ + (" at '"@ + self.token.lexeme@ + "'"@));
            },
        }
        text.append(": ");
        text.append(self.message.as_str());
        text
    }
}

/// What a compiler holds while it works.
pub struct CompilerView {
    pub source: Seq<u8>,
    /// Where the scanner goes on: the end of the current token.
    pub position: int,
    pub previous: TokenView,
    pub current: TokenView,
    /// Whether any error was reported: it never goes back to false.
    pub had_error: bool,
    /// Whether reports are held back, because one was made.
    pub panic_mode: bool,
    /// The errors reported so far, in order.
    pub diagnostics: Seq<DiagnosticView>,
    /// The error of the compiler itself that has come up first, if any.
    pub ice: Option<Ice>,
}

/// A compilation under way: the compiler and the chunk that it writes.
pub struct State {
    pub parser: CompilerView,
    pub chunk: ChunkView,
}

// ---------------------------------------------------------------------------
// What compiling means
// ---------------------------------------------------------------------------

/// Reports `message` at `token`, unless reports are held back. From the first
/// report on they are.
pub open spec fn report(p: CompilerView, token: TokenView, message: Seq<char>) -> CompilerView {
    if p.panic_mode {
        p
    } else {
        CompilerView {
            panic_mode: true,
            had_error: true,
            diagnostics: p.diagnostics.push(DiagnosticView { token, message }),
            ..p
        }
    }
}

/// Scans on until a token that is no `Error`, which becomes the current
/// token; each `Error` token on the way is reported with its own message.
pub open spec fn next_token(p: CompilerView) -> CompilerView
    decreases p.source.len() - p.position,
{
    let start = after_blanks(p.source, p.position, false);
    let token = token_at(p.source, start);
    let end = end_at(p.source, start);
    let scanned = CompilerView { current: token, position: end, ..p };
    if token.kind == TokenKind::Error && p.position < end {
        proof {
            lemma_token_bounds(p.source, start);
            if 0 <= p.position <= p.source.len() {
                lemma_after_blanks_bounds(p.source, p.position, false);
            }
        }
        next_token(report(scanned, token, token.lexeme))
    } else {
        scanned
    }
}

/// Takes the current token as the previous one and scans the next.
pub open spec fn advance(p: CompilerView) -> CompilerView {
    next_token(CompilerView { previous: p.current, ..p })
}

/// Moves over the current token if it is of the given kind; reports
/// `message` at it otherwise.
pub open spec fn consume(p: CompilerView, kind: TokenKind, message: Seq<char>) -> CompilerView {
    if p.current.kind == kind {
        advance(p)
    } else {
        report(p, p.current, message)
    }
}

/// Stops the compilation on an error of the compiler itself; the first
/// such error stays.
pub open spec fn fail(p: CompilerView, ice: Ice) -> CompilerView {
    if p.ice is Some {
        p
    } else {
        CompilerView { ice: Some(ice), ..p }
    }
}

/// The number of bytes behind the current token.
pub open spec fn bytes_left(p: CompilerView) -> nat {
    if p.position < p.source.len() {
        (p.source.len() - p.position) as nat
    } else {
        0
    }
}

/// How much is left to read: the bytes behind the current token, and that
/// token itself unless it is `EndOfFile`.
pub open spec fn remaining(p: CompilerView) -> nat {
    if p.current.kind == TokenKind::EndOfFile {
        bytes_left(p)
    } else {
        bytes_left(p) + 1
    }
}

impl State {
    /// The state with another parser and the same chunk.
    pub open spec fn with(self, parser: CompilerView) -> State {
        State { parser, ..self }
    }

    /// Appends one byte: its line is that of the previous token.
    pub open spec fn emit(self, byte: u8) -> State {
        State {
            chunk: ChunkView {
                code: self.chunk.code.push(byte),
                lines: self.chunk.lines.push(self.parser.previous.line as u32),
                ..self.chunk
            },
            ..self
        }
    }

    /// Appends one instruction without operand.
    pub open spec fn emit_op(self, op: OpCode) -> State {
        self.emit(op.spec_byte())
    }

    /// Makes a constant of the number token just read, and emits the
    /// instruction that loads it. The constant is the next of `numbers`: the
    /// values of the number literals, in the order of the source. Where no
    /// value is left, or the pool is full, the compilation has failed.
    pub open spec fn emit_number(self, numbers: Seq<u64>) -> State {
        let index = self.chunk.constants.len();
        if index >= numbers.len() {
            self.with(fail(self.parser, Ice::NumberWithoutValue))
        } else if index >= 256 {
            self.with(fail(self.parser, Ice::TooManyConstants))
        } else {
            let interned = State {
                chunk: ChunkView {
                    constants: self.chunk.constants.push(Value::Number(numbers[index as int])),
                    ..self.chunk
                },
                ..self
            };
            interned.emit_op(OpCode::Constant).emit(index as u8)
        }
    }

    /// Appends the instructions of a binary operator, which follow its two
    /// operands. `!=`, `>=` and `<=` are the negations of `==`, `<` and `>`.
    pub open spec fn emit_binary(self, operator: TokenKind) -> State {
        match operator {
            TokenKind::Plus => self.emit_op(OpCode::Add),
            TokenKind::Minus => self.emit_op(OpCode::Subtract),
            TokenKind::Star => self.emit_op(OpCode::Multiply),
            TokenKind::Slash => self.emit_op(OpCode::Divide),
            TokenKind::BangEqual => self.emit_op(OpCode::Equal).emit_op(OpCode::Not),
            TokenKind::EqualEqual => self.emit_op(OpCode::Equal),
            TokenKind::Greater => self.emit_op(OpCode::Greater),
            TokenKind::GreaterEqual => self.emit_op(OpCode::Less).emit_op(OpCode::Not),
            TokenKind::Less => self.emit_op(OpCode::Less),
            TokenKind::LessEqual => self.emit_op(OpCode::Greater).emit_op(OpCode::Not),
            _ => self,
        }
    }
}

/// Scanning on never goes back, and a token other than `EndOfFile` takes at
/// least one byte.
pub proof fn lemma_next_token_consumes(p: CompilerView)
    ensures
        remaining(next_token(p)) <= bytes_left(p),
        next_token(p).source == p.source,
        next_token(p).previous == p.previous,
        next_token(p).ice == p.ice,
        p.had_error ==> next_token(p).had_error,
    decreases p.source.len() - p.position,
{
    let start = after_blanks(p.source, p.position, false);
    let token = token_at(p.source, start);
    let end = end_at(p.source, start);
    let scanned = CompilerView { current: token, position: end, ..p };
    lemma_token_bounds(p.source, start);
    if 0 <= p.position <= p.source.len() {
        lemma_after_blanks_bounds(p.source, p.position, false);
    }
    if token.kind == TokenKind::Error && p.position < end {
        lemma_next_token_consumes(report(scanned, token, token.lexeme));
    }
}

/// Advancing never goes back, and takes the current token away: what is
/// left gets smaller unless that token is `EndOfFile`.
pub proof fn lemma_advance_consumes(p: CompilerView)
    ensures
        remaining(advance(p)) <= remaining(p),
        p.current.kind != TokenKind::EndOfFile ==> remaining(advance(p)) < remaining(p),
        advance(p).source == p.source,
        advance(p).previous == p.current,
        advance(p).ice == p.ice,
        p.had_error ==> advance(p).had_error,
{
    lemma_next_token_consumes(CompilerView { previous: p.current, ..p });
}

/// Whether an operand that starts with a token of this kind holds another
/// expression.
pub open spec fn opens_operand(kind: TokenKind) -> bool {
    kind == TokenKind::LeftParen || kind == TokenKind::Minus || kind == TokenKind::Bang
}

/// Parses one expression of operators that bind at least as tightly as
/// `min`, and emits its code: first an operand, then the binary operators
/// that follow it, each with its right operand.
///
/// The test on `remaining` holds whenever it is made (see
/// `lemma_parse_consumes`); it is there to show that the definition ends.
pub open spec fn parse_precedence(s: State, min: Precedence, numbers: Seq<u64>) -> State
    decreases remaining(s.parser), 2nat,
{
    let operand = prefix_rule(
        {
            proof {
                lemma_advance_consumes(s.parser);
            }
            s.with(advance(s.parser))
        },
        numbers,
    );
    if remaining(operand.parser) <= remaining(s.parser) {
        infix_loop(operand, min, numbers)
    } else {
        operand
    }
}

/// Parses an operand whose first token has just been read. That token
/// decides what the operand is:
///
/// * `(`: an expression in parentheses, which must be closed;
/// * `-` or `!`: the operand of the operator, then `Negate` or `Not`;
/// * a number: the constant made of it;
/// * `true`, `false`, `nil`: the instruction of that name;
/// * any other token: the error "Expect expression.".
pub open spec fn prefix_rule(s: State, numbers: Seq<u64>) -> State
    decreases
        remaining(s.parser) + (if opens_operand(s.parser.previous.kind) {
            1nat
        } else {
            0nat
        }),
        0nat,
{
    match s.parser.previous.kind {
        TokenKind::LeftParen => {
            let inner = parse_precedence(s, Precedence::Assignment, numbers);
            inner.with(
                consume(inner.parser, TokenKind::RightParen, "Expect ')' after expression."@),
            )
        },
        TokenKind::Minus => parse_precedence(s, Precedence::Unary, numbers).emit_op(OpCode::Negate),
        TokenKind::Bang => parse_precedence(s, Precedence::Unary, numbers).emit_op(OpCode::Not),
        TokenKind::Number => s.emit_number(numbers),
        TokenKind::False => s.emit_op(OpCode::False),
        TokenKind::True => s.emit_op(OpCode::True),
        TokenKind::Nil => s.emit_op(OpCode::Nil),
        _ => s.with(report(s.parser, s.parser.previous, "Expect expression."@)),
    }
}

/// Goes on behind an operand: as long as the current token is a binary
/// operator that binds at least as tightly as `min`, reads it and applies
/// its rule.
///
/// The test on `remaining` holds whenever it is made (see
/// `lemma_parse_consumes`); it is there to show that the definition ends.
pub open spec fn infix_loop(s: State, min: Precedence, numbers: Seq<u64>) -> State
    decreases remaining(s.parser), 1nat,
{
    if min.rank() <= precedence_of(s.parser.current.kind).rank() {
        let done = infix_rule(
            {
                proof {
                    lemma_advance_consumes(s.parser);
                }
                s.with(advance(s.parser))
            },
            numbers,
        );
        if remaining(done.parser) < remaining(s.parser) {
            infix_loop(done, min, numbers)
        } else {
            done
        }
    } else {
        s
    }
}

/// Applies the binary operator that has just been read: parses its right
/// operand one level tighter than the operator, which makes the operator
/// left-associative, and emits the operator's instructions. A token that is
/// no binary operator gives the error "Expect expression.".
pub open spec fn infix_rule(s: State, numbers: Seq<u64>) -> State
    decreases
        remaining(s.parser) + (if precedence_of(s.parser.previous.kind) != Precedence::Lowest {
            1nat
        } else {
            0nat
        }),
        0nat,
{
    let operator = s.parser.previous.kind;
    if precedence_of(operator) != Precedence::Lowest {
        parse_precedence(s, precedence_of(operator).spec_plus_one(), numbers).emit_binary(
            operator,
        )
    } else {
        s.with(report(s.parser, s.parser.previous, "Expect expression."@))
    }
}

/// A whole compilation: one expression, the end of the source, `Return`.
/// When it is over, reports are held back no longer.
pub open spec fn compilation(s: State, numbers: Seq<u64>) -> State {
    let parsed = parse_precedence(s.with(advance(s.parser)), Precedence::Assignment, numbers);
    let ended = parsed.with(
        consume(parsed.parser, TokenKind::EndOfFile, "Expect end of expression."@),
    ).emit_op(OpCode::Return);
    ended.with(CompilerView { panic_mode: false, ..ended.parser })
}

/// The token that stands for "nothing read yet".
pub open spec fn no_token() -> TokenView {
    TokenView { kind: TokenKind::Error, lexeme: "Nothing is read yet."@, line: 0 }
}

/// The state in which the compilation of `source` starts: nothing read,
/// nothing reported, an empty chunk.
pub open spec fn initial(source: Seq<u8>) -> State {
    State {
        parser: CompilerView {
            source,
            position: 0,
            previous: no_token(),
            current: no_token(),
            had_error: false,
            panic_mode: false,
            diagnostics: Seq::empty(),
            ice: None,
        },
        chunk: ChunkView { code: Seq::empty(), lines: Seq::empty(), constants: Seq::empty() },
    }
}

/// What a step of the compilation keeps: the source, the flags once they are
/// set, and what the chunk holds, to which it adds as many lines as bytes.
pub open spec fn extends(before: State, after: State) -> bool {
    &&& after.parser.source == before.parser.source
    &&& remaining(after.parser) <= remaining(before.parser)
    &&& (before.parser.had_error ==> after.parser.had_error)
    &&& (before.parser.ice is Some ==> after.parser.ice == before.parser.ice)
    &&& before.chunk.constants.len() <= after.chunk.constants.len()
    &&& before.chunk.code.len() <= after.chunk.code.len()
    &&& after.chunk.code.len() - before.chunk.code.len() == after.chunk.lines.len()
        - before.chunk.lines.len()
}

/// Parsing never goes back in the source, never takes an error back, and
/// only appends to the chunk.
pub proof fn lemma_parse_consumes(s: State, min: Precedence, numbers: Seq<u64>)
    ensures
        extends(s, parse_precedence(s, min, numbers)),
    decreases remaining(s.parser), 2nat,
{
    let a = s.with(advance(s.parser));
    lemma_advance_consumes(s.parser);
    lemma_prefix_consumes(a, numbers);
    let operand = prefix_rule(a, numbers);
    lemma_infix_loop_consumes(operand, min, numbers);
}

/// The same for an operand: see `lemma_parse_consumes`.
pub proof fn lemma_prefix_consumes(s: State, numbers: Seq<u64>)
    ensures
        extends(s, prefix_rule(s, numbers)),
    decreases
        remaining(s.parser) + (if opens_operand(s.parser.previous.kind) {
            1nat
        } else {
            0nat
        }),
        0nat,
{
    match s.parser.previous.kind {
        TokenKind::LeftParen => {
            lemma_parse_consumes(s, Precedence::Assignment, numbers);
            lemma_advance_consumes(parse_precedence(s, Precedence::Assignment, numbers).parser);
        },
        TokenKind::Minus => {
            lemma_parse_consumes(s, Precedence::Unary, numbers);
        },
        TokenKind::Bang => {
            lemma_parse_consumes(s, Precedence::Unary, numbers);
        },
        _ => {},
    }
}

/// The same for the operators behind an operand: see
/// `lemma_parse_consumes`.
pub proof fn lemma_infix_loop_consumes(s: State, min: Precedence, numbers: Seq<u64>)
    ensures
        extends(s, infix_loop(s, min, numbers)),
    decreases remaining(s.parser), 1nat,
{
    if min.rank() <= precedence_of(s.parser.current.kind).rank() {
        let a = s.with(advance(s.parser));
        lemma_advance_consumes(s.parser);
        lemma_infix_consumes(a, numbers);
        let done = infix_rule(a, numbers);
        if remaining(done.parser) < remaining(s.parser) {
            lemma_infix_loop_consumes(done, min, numbers);
        }
    }
}

/// The same for one binary operator: see `lemma_parse_consumes`.
pub proof fn lemma_infix_consumes(s: State, numbers: Seq<u64>)
    ensures
        extends(s, infix_rule(s, numbers)),
    decreases
        remaining(s.parser) + (if precedence_of(s.parser.previous.kind) != Precedence::Lowest {
            1nat
        } else {
            0nat
        }),
        0nat,
{
    let operator = s.parser.previous.kind;
    if precedence_of(operator) != Precedence::Lowest {
        lemma_parse_consumes(s, precedence_of(operator).spec_plus_one(), numbers);
    }
}

// ---------------------------------------------------------------------------
// What holds of every compilation
// ---------------------------------------------------------------------------

/// Whether the compilation has met no error, neither in the source nor of
/// its own.
pub open spec fn healthy(p: CompilerView) -> bool {
    !p.had_error && p.ice is None
}

/// Reports are only held back once an error was reported.
pub open spec fn sane(p: CompilerView) -> bool {
    p.panic_mode ==> p.had_error
}

/// The number of values that the code written so far leaves on the stack,
/// where that code is in order: where a walk through it ends and has loaded
/// every constant of the pool, once and in the order of the pool.
pub open spec fn stack_depth(chunk: ChunkView) -> Option<nat> {
    match walk(chunk.code, 0, 0, 0) {
        Some(shape) => if shape.loaded == chunk.constants.len() && chunk.constants.len() <= 256 {
            Some(shape.depth)
        } else {
            None
        },
        None => None,
    }
}

/// Whether each constant of the pool is the value that was given for it:
/// the constant at index `k` is the number `numbers[k]`.
pub open spec fn pool_follows(constants: Seq<Value>, numbers: Seq<u64>) -> bool {
    constants.len() <= numbers.len() && forall|k: int|
        0 <= k < constants.len() ==> #[trigger] constants[k] == Value::Number(numbers[k])
}

/// How one more instruction without operand changes the depth of the stack.
proof fn lemma_emit_op_depth(s: State, op: OpCode)
    requires
        stack_depth(s.chunk) is Some,
        op != OpCode::Return,
        op != OpCode::Constant,
    ensures
        (op == OpCode::Nil || op == OpCode::True || op == OpCode::False) ==> stack_depth(
            s.emit_op(op).chunk,
        ) == Some(stack_depth(s.chunk)->0 + 1),
        (op == OpCode::Negate || op == OpCode::Not) && stack_depth(s.chunk)->0 >= 1
            ==> stack_depth(s.emit_op(op).chunk) == stack_depth(s.chunk),
        (op == OpCode::Add || op == OpCode::Subtract || op == OpCode::Multiply || op
            == OpCode::Divide || op == OpCode::Equal || op == OpCode::Greater || op
            == OpCode::Less) && stack_depth(s.chunk)->0 >= 2 ==> stack_depth(s.emit_op(op).chunk)
            == Some((stack_depth(s.chunk)->0 - 1) as nat),
{
    let code = s.chunk.code;
    let more = seq![op.spec_byte()];
    let all = s.emit_op(op).chunk.code;
    let shape = walk(code, 0, 0, 0)->0;
    assert(all =~= code + more);
    lemma_walk_append(code, more, 0, 0, 0);
    assert(all[code.len() as int] == op.spec_byte());
    assert(walk(all, code.len() as int + 1, shape.depth + 1, shape.loaded) == Some(
        Shape { depth: shape.depth + 1, loaded: shape.loaded },
    ));
    assert(walk(all, code.len() as int + 1, shape.depth, shape.loaded) == Some(
        Shape { depth: shape.depth, loaded: shape.loaded },
    ));
    if shape.depth >= 1 {
        assert(walk(all, code.len() as int + 1, (shape.depth - 1) as nat, shape.loaded) == Some(
            Shape { depth: (shape.depth - 1) as nat, loaded: shape.loaded },
        ));
    }
}

/// A constant that is made puts one more value on the stack, and is the
/// value that was given for it.
proof fn lemma_emit_number_depth(s: State, numbers: Seq<u64>)
    requires
        stack_depth(s.chunk) is Some,
    ensures
        healthy(s.emit_number(numbers).parser) ==> stack_depth(s.emit_number(numbers).chunk)
            == Some(stack_depth(s.chunk)->0 + 1),
        pool_follows(s.chunk.constants, numbers) ==> pool_follows(
            s.emit_number(numbers).chunk.constants,
            numbers,
        ),
{
    let index = s.chunk.constants.len();
    if index < numbers.len() && index < 256 {
        let code = s.chunk.code;
        let more = seq![OpCode::Constant.spec_byte(), index as u8];
        let all = s.emit_number(numbers).chunk.code;
        let shape = walk(code, 0, 0, 0)->0;
        assert(all =~= code + more);
        lemma_walk_append(code, more, 0, 0, 0);
        assert(all[code.len() as int] == OpCode::Constant.spec_byte());
        assert(all[code.len() as int + 1] == index as u8);
        assert(walk(all, code.len() as int + 2, shape.depth + 1, shape.loaded + 1) == Some(
            Shape { depth: shape.depth + 1, loaded: shape.loaded + 1 },
        ));
    }
}

/// How the instructions of a binary operator change the depth of the
/// stack: they take two values and leave one.
proof fn lemma_emit_binary_depth(s: State, operator: TokenKind)
    requires
        stack_depth(s.chunk) is Some,
        stack_depth(s.chunk)->0 >= 2,
        precedence_of(operator) != Precedence::Lowest,
    ensures
        stack_depth(s.emit_binary(operator).chunk) == Some((stack_depth(s.chunk)->0 - 1) as nat),
        s.emit_binary(operator).parser == s.parser,
        s.emit_binary(operator).chunk.constants == s.chunk.constants,
{
    match operator {
        TokenKind::Plus => lemma_emit_op_depth(s, OpCode::Add),
        TokenKind::Minus => lemma_emit_op_depth(s, OpCode::Subtract),
        TokenKind::Star => lemma_emit_op_depth(s, OpCode::Multiply),
        TokenKind::Slash => lemma_emit_op_depth(s, OpCode::Divide),
        TokenKind::BangEqual => {
            lemma_emit_op_depth(s, OpCode::Equal);
            lemma_emit_op_depth(s.emit_op(OpCode::Equal), OpCode::Not);
        },
        TokenKind::EqualEqual => lemma_emit_op_depth(s, OpCode::Equal),
        TokenKind::Greater => lemma_emit_op_depth(s, OpCode::Greater),
        TokenKind::GreaterEqual => {
            lemma_emit_op_depth(s, OpCode::Less);
            lemma_emit_op_depth(s.emit_op(OpCode::Less), OpCode::Not);
        },
        TokenKind::Less => lemma_emit_op_depth(s, OpCode::Less),
        TokenKind::LessEqual => {
            lemma_emit_op_depth(s, OpCode::Greater);
            lemma_emit_op_depth(s.emit_op(OpCode::Greater), OpCode::Not);
        },
        _ => {},
    }
}

/// An expression that is parsed without an error puts its code behind the
/// code that is there, and that code leaves one more value on the stack.
/// Each constant that it makes is the value given for it.
pub proof fn lemma_parse_shape(s: State, min: Precedence, numbers: Seq<u64>)
    requires
        sane(s.parser),
    ensures
        sane(parse_precedence(s, min, numbers).parser),
        stack_depth(s.chunk) is Some && healthy(parse_precedence(s, min, numbers).parser)
            ==> stack_depth(parse_precedence(s, min, numbers).chunk) == Some(
            stack_depth(s.chunk)->0 + 1,
        ),
        pool_follows(s.chunk.constants, numbers) ==> pool_follows(
            parse_precedence(s, min, numbers).chunk.constants,
            numbers,
        ),
    decreases remaining(s.parser), 2nat,
{
    let a = s.with(advance(s.parser));
    lemma_advance_consumes(s.parser);
    lemma_advance_sane(s.parser);
    lemma_prefix_consumes(a, numbers);
    lemma_prefix_shape(a, numbers);
    let operand = prefix_rule(a, numbers);
    lemma_infix_loop_consumes(operand, min, numbers);
    lemma_infix_loop_shape(operand, min, numbers);
}

/// Scanning on keeps a state sane.
pub proof fn lemma_next_token_sane(p: CompilerView)
    requires
        sane(p),
    ensures
        sane(next_token(p)),
    decreases p.source.len() - p.position,
{
    let start = after_blanks(p.source, p.position, false);
    let token = token_at(p.source, start);
    let end = end_at(p.source, start);
    let scanned = CompilerView { current: token, position: end, ..p };
    if token.kind == TokenKind::Error && p.position < end {
        lemma_token_bounds(p.source, start);
        if 0 <= p.position <= p.source.len() {
            lemma_after_blanks_bounds(p.source, p.position, false);
        }
        lemma_next_token_sane(report(scanned, token, token.lexeme));
    }
}

/// Advancing keeps a state sane.
pub proof fn lemma_advance_sane(p: CompilerView)
    requires
        sane(p),
    ensures
        sane(advance(p)),
{
    lemma_next_token_sane(CompilerView { previous: p.current, ..p });
}

/// The same for an operand: see `lemma_parse_shape`.
pub proof fn lemma_prefix_shape(s: State, numbers: Seq<u64>)
    requires
        sane(s.parser),
    ensures
        sane(prefix_rule(s, numbers).parser),
        stack_depth(s.chunk) is Some && healthy(prefix_rule(s, numbers).parser) ==> stack_depth(
            prefix_rule(s, numbers).chunk,
        ) == Some(stack_depth(s.chunk)->0 + 1),
        pool_follows(s.chunk.constants, numbers) ==> pool_follows(
            prefix_rule(s, numbers).chunk.constants,
            numbers,
        ),
    decreases
        remaining(s.parser) + (if opens_operand(s.parser.previous.kind) {
            1nat
        } else {
            0nat
        }),
        0nat,
{
    match s.parser.previous.kind {
        TokenKind::LeftParen => {
            let inner = parse_precedence(s, Precedence::Assignment, numbers);
            lemma_parse_consumes(s, Precedence::Assignment, numbers);
            lemma_parse_shape(s, Precedence::Assignment, numbers);
            lemma_advance_consumes(inner.parser);
            lemma_advance_sane(inner.parser);
        },
        TokenKind::Minus => {
            let inner = parse_precedence(s, Precedence::Unary, numbers);
            lemma_parse_consumes(s, Precedence::Unary, numbers);
            lemma_parse_shape(s, Precedence::Unary, numbers);
            if stack_depth(inner.chunk) is Some {
                lemma_emit_op_depth(inner, OpCode::Negate);
            }
        },
        TokenKind::Bang => {
            let inner = parse_precedence(s, Precedence::Unary, numbers);
            lemma_parse_consumes(s, Precedence::Unary, numbers);
            lemma_parse_shape(s, Precedence::Unary, numbers);
            if stack_depth(inner.chunk) is Some {
                lemma_emit_op_depth(inner, OpCode::Not);
            }
        },
        TokenKind::Number => {
            if stack_depth(s.chunk) is Some {
                lemma_emit_number_depth(s, numbers);
            } else {
                lemma_emit_number_pool(s, numbers);
            }
        },
        TokenKind::False => {
            if stack_depth(s.chunk) is Some {
                lemma_emit_op_depth(s, OpCode::False);
            }
        },
        TokenKind::True => {
            if stack_depth(s.chunk) is Some {
                lemma_emit_op_depth(s, OpCode::True);
            }
        },
        TokenKind::Nil => {
            if stack_depth(s.chunk) is Some {
                lemma_emit_op_depth(s, OpCode::Nil);
            }
        },
        _ => {},
    }
}

/// A constant that is made is the value that was given for it.
proof fn lemma_emit_number_pool(s: State, numbers: Seq<u64>)
    ensures
        pool_follows(s.chunk.constants, numbers) ==> pool_follows(
            s.emit_number(numbers).chunk.constants,
            numbers,
        ),
{
}

/// The operators behind an operand, parsed without an error, leave the
/// stack as deep as it was: each takes its two operands and leaves one
/// value.
pub proof fn lemma_infix_loop_shape(s: State, min: Precedence, numbers: Seq<u64>)
    requires
        sane(s.parser),
    ensures
        sane(infix_loop(s, min, numbers).parser),
        stack_depth(s.chunk) is Some && stack_depth(s.chunk)->0 >= 1 && healthy(
            infix_loop(s, min, numbers).parser,
        ) ==> stack_depth(infix_loop(s, min, numbers).chunk) == stack_depth(s.chunk),
        pool_follows(s.chunk.constants, numbers) ==> pool_follows(
            infix_loop(s, min, numbers).chunk.constants,
            numbers,
        ),
    decreases remaining(s.parser), 1nat,
{
    if min.rank() <= precedence_of(s.parser.current.kind).rank() {
        let a = s.with(advance(s.parser));
        lemma_advance_consumes(s.parser);
        lemma_advance_sane(s.parser);
        lemma_infix_consumes(a, numbers);
        lemma_infix_shape(a, numbers);
        let done = infix_rule(a, numbers);
        if remaining(done.parser) < remaining(s.parser) {
            lemma_infix_loop_consumes(done, min, numbers);
            lemma_infix_loop_shape(done, min, numbers);
        }
    }
}

/// The same for one binary operator: see `lemma_infix_loop_shape`.
pub proof fn lemma_infix_shape(s: State, numbers: Seq<u64>)
    requires
        sane(s.parser),
    ensures
        sane(infix_rule(s, numbers).parser),
        stack_depth(s.chunk) is Some && stack_depth(s.chunk)->0 >= 1 && healthy(
            infix_rule(s, numbers).parser,
        ) ==> stack_depth(infix_rule(s, numbers).chunk) == stack_depth(s.chunk),
        pool_follows(s.chunk.constants, numbers) ==> pool_follows(
            infix_rule(s, numbers).chunk.constants,
            numbers,
        ),
    decreases
        remaining(s.parser) + (if precedence_of(s.parser.previous.kind) != Precedence::Lowest {
            1nat
        } else {
            0nat
        }),
        0nat,
{
    let operator = s.parser.previous.kind;
    if precedence_of(operator) != Precedence::Lowest {
        let right = parse_precedence(s, precedence_of(operator).spec_plus_one(), numbers);
        lemma_parse_consumes(s, precedence_of(operator).spec_plus_one(), numbers);
        lemma_parse_shape(s, precedence_of(operator).spec_plus_one(), numbers);
        if stack_depth(right.chunk) is Some && stack_depth(right.chunk)->0 >= 2 {
            lemma_emit_binary_depth(right, operator);
        }
    }
}

/// The state in which a compiler starts on a new chunk.
pub open spec fn fresh(p: CompilerView) -> State {
    State {
        parser: p,
        chunk: ChunkView { code: Seq::empty(), lines: Seq::empty(), constants: Seq::empty() },
    }
}

/// A compilation without an error makes a program: the code of one
/// expression and `Return`, with as many lines as bytes, whose constants are
/// the values given for them, each loaded once and in order.
pub proof fn lemma_compilation_makes_program(p: CompilerView, numbers: Seq<u64>)
    requires
        sane(p),
    ensures
        healthy(compilation(fresh(p), numbers).parser) ==> is_program(
            compilation(fresh(p), numbers).chunk,
        ),
        pool_follows(compilation(fresh(p), numbers).chunk.constants, numbers),
        sane(compilation(fresh(p), numbers).parser),
        compilation(fresh(p), numbers).parser.source == p.source,
{
    let s = fresh(p);
    let a = s.with(advance(s.parser));
    lemma_advance_consumes(s.parser);
    lemma_advance_sane(s.parser);
    assert(stack_depth(a.chunk) == Some(0nat));
    let parsed = parse_precedence(a, Precedence::Assignment, numbers);
    lemma_parse_consumes(a, Precedence::Assignment, numbers);
    lemma_parse_shape(a, Precedence::Assignment, numbers);
    lemma_advance_consumes(parsed.parser);
    lemma_advance_sane(parsed.parser);
    let consumed = parsed.with(
        consume(parsed.parser, TokenKind::EndOfFile, "Expect end of expression."@),
    );
    let ended = consumed.emit_op(OpCode::Return);
    if healthy(compilation(s, numbers).parser) {
        assert(ended.chunk.code.drop_last() =~= parsed.chunk.code);
    }
}

/// Compiling is deterministic: two compilations of one source, with the
/// same values for its number literals, make the same chunk, byte for byte
/// and line for line, and report the same errors.
pub proof fn lemma_compilation_is_deterministic(
    source: Seq<u8>,
    numbers: Seq<u64>,
    once: State,
    again: State,
)
    requires
        once == compilation(initial(source), numbers),
        again == compilation(initial(source), numbers),
    ensures
        once.chunk.code == again.chunk.code,
        once.chunk.lines == again.chunk.lines,
        once.chunk.constants == again.chunk.constants,
        once.parser.had_error == again.parser.had_error,
        once.parser.diagnostics == again.parser.diagnostics,
{
}

// ---------------------------------------------------------------------------
// The number literals of a source
// ---------------------------------------------------------------------------

/// The texts of the number tokens of the source from `pos` on, in their
/// order.
pub open spec fn number_lexemes(src: Seq<u8>, pos: int) -> Seq<Seq<char>>
    decreases src.len() - pos,
{
    let start = after_blanks(src, pos, false);
    let end = end_at(src, start);
    if pos < 0 || start >= src.len() || end <= pos {
        Seq::empty()
    } else {
        proof {
            if pos <= src.len() {
                lemma_after_blanks_bounds(src, pos, false);
                lemma_token_bounds(src, start);
            }
        }
        if kind_at(src, start) == TokenKind::Number {
            seq![lexeme_at(src, start)] + number_lexemes(src, end)
        } else {
            number_lexemes(src, end)
        }
    }
}

/// The texts of the number literals of `source`, in their order: a compiler
/// takes one value for each of them. The source is shorter than `usize::MAX`
/// bytes, as a scanner asks.
pub fn number_literals(source: String) -> (literals: Vec<String>)
    requires
        source_bytes(source@).len() < usize::MAX,
    ensures
        literals@.len() == number_lexemes(source_bytes(source@), 0).len(),
        forall|i: int|
            0 <= i < literals@.len() ==> (#[trigger] literals@[i])@ == number_lexemes(
                source_bytes(source@),
                0,
            )[i],
{
    let ghost src = source_bytes(source@);
    let ghost all = number_lexemes(src, 0);
    let mut scanner = Scanner::new(source);
    let mut literals: Vec<String> = Vec::new();
    loop
        invariant
            scanner.wf(),
            scanner@.source == src,
            all == number_lexemes(src, 0),
            literals@.len() <= all.len(),
            forall|i: int| 0 <= i < literals@.len() ==> (#[trigger] literals@[i])@ == all[i],
            all =~= all.subrange(0, literals@.len() as int) + number_lexemes(
                src,
                scanner@.current as int,
            ),
        ensures
            literals@.len() == all.len(),
            forall|i: int| 0 <= i < literals@.len() ==> (#[trigger] literals@[i])@ == all[i],
        decreases src.len() - scanner@.current,
    {
        let ghost pos = scanner@.current as int;
        let ghost taken = literals@.len() as int;
        proof {
            lemma_after_blanks_bounds(src, pos, false);
            lemma_token_bounds(src, after_blanks(src, pos, false));
        }
        let token = scanner.scan_token();
        match token.kind {
            TokenKind::EndOfFile => {
                assert(number_lexemes(src, pos) =~= Seq::empty());
                break ;
            },
            TokenKind::Number => {
                literals.push(token.lexeme);
                assert(all[taken] == number_lexemes(src, pos)[0]);
                assert(all.subrange(0, taken + 1) =~= all.subrange(0, taken).push(all[taken]));
            },
            _ => {},
        }
    }
    literals
}

/// The number of constants that a compilation makes at most from here on,
/// with those that it has made: one for the current token if that is a
/// number, and one for each number token behind it.
pub open spec fn owed(s: State) -> nat {
    s.chunk.constants.len() + number_lexemes(s.parser.source, s.parser.position).len() + (
    if s.parser.current.kind == TokenKind::Number {
        1nat
    } else {
        0nat
    })
}

/// Whether the scanner of the compilation stands inside the source, and at
/// its end once the current token is `EndOfFile`: only blanks are left then.
pub open spec fn in_source(p: CompilerView) -> bool {
    &&& 0 <= p.position <= p.source.len()
    &&& p.current.kind == TokenKind::EndOfFile ==> after_blanks(p.source, p.position, false)
        >= p.source.len()
}

/// Whether the values suffice for what the compilation may still make of
/// them, and the pool has room for it.
pub open spec fn provided(s: State, pending: nat, numbers: Seq<u64>) -> bool {
    s.parser.ice is None && owed(s) + pending <= numbers.len() && owed(s) + pending <= 256
}

/// Scanning on stays inside the source, and makes the next number token,
/// if it comes to one, the current token.
pub proof fn lemma_next_token_owed(p: CompilerView)
    requires
        in_source(p),
    ensures
        in_source(next_token(p)),
        number_lexemes(p.source, p.position).len() == number_lexemes(
            next_token(p).source,
            next_token(p).position,
        ).len() + (if next_token(p).current.kind == TokenKind::Number {
            1nat
        } else {
            0nat
        }),
    decreases p.source.len() - p.position,
{
    let start = after_blanks(p.source, p.position, false);
    let token = token_at(p.source, start);
    let end = end_at(p.source, start);
    let scanned = CompilerView { current: token, position: end, ..p };
    lemma_after_blanks_bounds(p.source, p.position, false);
    lemma_token_bounds(p.source, start);
    if start >= p.source.len() {
        lemma_after_blanks_bounds(p.source, end, false);
        assert(number_lexemes(p.source, end) =~= Seq::empty());
    } else if token.kind == TokenKind::Error {
        lemma_next_token_owed(report(scanned, token, token.lexeme));
    }
}

/// Advancing stays inside the source, and takes the current token away
/// from what is owed if it is a number.
pub proof fn lemma_advance_owed(s: State)
    requires
        in_source(s.parser),
    ensures
        in_source(advance(s.parser)),
        owed(s.with(advance(s.parser))) + (if s.parser.current.kind == TokenKind::Number {
            1nat
        } else {
            0nat
        }) == owed(s),
{
    lemma_next_token_owed(CompilerView { previous: s.parser.current, ..s.parser });
}

/// An expression makes no more constants than there are number tokens for
/// it: where a value is given for each number literal of the source, and
/// these are 256 at most, the compilation does not fail by an error of its
/// own.
pub proof fn lemma_parse_owed(s: State, min: Precedence, numbers: Seq<u64>)
    requires
        in_source(s.parser),
    ensures
        in_source(parse_precedence(s, min, numbers).parser),
        owed(parse_precedence(s, min, numbers)) <= owed(s),
        provided(s, 0, numbers) ==> parse_precedence(s, min, numbers).parser.ice is None,
    decreases remaining(s.parser), 2nat,
{
    let a = s.with(advance(s.parser));
    lemma_advance_consumes(s.parser);
    lemma_advance_owed(s);
    lemma_prefix_consumes(a, numbers);
    lemma_prefix_owed(a, numbers);
    let operand = prefix_rule(a, numbers);
    lemma_infix_loop_owed(operand, min, numbers);
}

/// The same for an operand, whose first token may be a number that is
/// still to be made a constant: see `lemma_parse_owed`.
pub proof fn lemma_prefix_owed(s: State, numbers: Seq<u64>)
    requires
        in_source(s.parser),
    ensures
        in_source(prefix_rule(s, numbers).parser),
        owed(prefix_rule(s, numbers)) <= owed(s) + (if s.parser.previous.kind
            == TokenKind::Number {
            1nat
        } else {
            0nat
        }),
        provided(
            s,
            if s.parser.previous.kind == TokenKind::Number {
                1nat
            } else {
                0nat
            },
            numbers,
        ) ==> prefix_rule(s, numbers).parser.ice is None,
    decreases
        remaining(s.parser) + (if opens_operand(s.parser.previous.kind) {
            1nat
        } else {
            0nat
        }),
        0nat,
{
    match s.parser.previous.kind {
        TokenKind::LeftParen => {
            let inner = parse_precedence(s, Precedence::Assignment, numbers);
            lemma_parse_owed(s, Precedence::Assignment, numbers);
            lemma_advance_consumes(inner.parser);
            lemma_advance_owed(inner);
        },
        TokenKind::Minus => {
            lemma_parse_owed(s, Precedence::Unary, numbers);
        },
        TokenKind::Bang => {
            lemma_parse_owed(s, Precedence::Unary, numbers);
        },
        _ => {},
    }
}

/// The same for the operators behind an operand: see `lemma_parse_owed`.
pub proof fn lemma_infix_loop_owed(s: State, min: Precedence, numbers: Seq<u64>)
    requires
        in_source(s.parser),
    ensures
        in_source(infix_loop(s, min, numbers).parser),
        owed(infix_loop(s, min, numbers)) <= owed(s),
        provided(s, 0, numbers) ==> infix_loop(s, min, numbers).parser.ice is None,
    decreases remaining(s.parser), 1nat,
{
    if min.rank() <= precedence_of(s.parser.current.kind).rank() {
        let a = s.with(advance(s.parser));
        lemma_advance_consumes(s.parser);
        lemma_advance_owed(s);
        lemma_infix_consumes(a, numbers);
        lemma_infix_owed(a, numbers);
        let done = infix_rule(a, numbers);
        if remaining(done.parser) < remaining(s.parser) {
            lemma_infix_loop_owed(done, min, numbers);
        }
    }
}

/// The same for one binary operator: see `lemma_parse_owed`.
pub proof fn lemma_infix_owed(s: State, numbers: Seq<u64>)
    requires
        in_source(s.parser),
    ensures
        in_source(infix_rule(s, numbers).parser),
        owed(infix_rule(s, numbers)) <= owed(s) + (if s.parser.previous.kind
            == TokenKind::Number {
            1nat
        } else {
            0nat
        }),
        provided(s, 0, numbers) ==> infix_rule(s, numbers).parser.ice is None,
    decreases
        remaining(s.parser) + (if precedence_of(s.parser.previous.kind) != Precedence::Lowest {
            1nat
        } else {
            0nat
        }),
        0nat,
{
    let operator = s.parser.previous.kind;
    if precedence_of(operator) != Precedence::Lowest {
        lemma_parse_owed(s, precedence_of(operator).spec_plus_one(), numbers);
    }
}

/// Where a value is given for each number literal of the source, and these
/// are 256 at most, the compilation of the source does not fail by an error
/// of its own.
pub proof fn lemma_enough_numbers(source: Seq<u8>, numbers: Seq<u64>)
    requires
        number_lexemes(source, 0).len() <= numbers.len(),
        number_lexemes(source, 0).len() <= 256,
    ensures
        compilation(initial(source), numbers).parser.ice is None,
{
    let s = initial(source);
    let a = s.with(advance(s.parser));
    lemma_advance_consumes(s.parser);
    lemma_advance_owed(s);
    assert(provided(a, 0, numbers));
    lemma_parse_owed(a, Precedence::Assignment, numbers);
    let parsed = parse_precedence(a, Precedence::Assignment, numbers);
    lemma_advance_consumes(parsed.parser);
}

// ---------------------------------------------------------------------------
// The compiler
// ---------------------------------------------------------------------------

struct Parser {
    previous: Token,
    current: Token,
    // whether an error has appeared at any time in the compilation
    had_error: bool,
    // once the parser meets an error, reports are held back, so that one
    // mistake gives one report
    panic_mode: bool,
}

/// The compiler of one source text: it owns the scanner of the source, and
/// writes the chunk that `compile` gives.
pub struct Compiler {
    scanner: Scanner,
    parser: Parser,
    diagnostics: Vec<Diagnostic>,
    ice: Option<Ice>,
}

impl View for Compiler {
    type V = CompilerView;

    closed spec fn view(&self) -> CompilerView {
        CompilerView {
            source: self.scanner@.source,
            position: self.scanner@.current as int,
            previous: self.parser.previous@,
            current: self.parser.current@,
            had_error: self.parser.had_error,
            panic_mode: self.parser.panic_mode,
            diagnostics: Seq::new(self.diagnostics@.len(), |i: int| self.diagnostics@[i]@),
            ice: self.ice,
        }
    }
}

impl Compiler {
    /// The scanner is in order, and reports are only held back once an
    /// error was reported.
    pub closed spec fn wf(&self) -> bool {
        self.scanner.wf() && sane(self@)
    }

    /// The compilation that this compiler and `chunk` are in.
    pub open spec fn state(&self, chunk: &Chunk) -> State {
        State { parser: self@, chunk: chunk@ }
    }

    /// A compiler for `source`, with nothing read yet. The source is shorter
    /// than `usize::MAX` bytes, as a scanner asks.
    pub fn new(source: String) -> (r: Self)
        requires
            source_bytes(source@).len() < usize::MAX,
        ensures
            r.wf(),
            r@ == initial(source_bytes(source@)).parser,
    {
        let r = Self {
            scanner: Scanner::new(source),
            parser: Parser {
                previous: Token {
                    kind: TokenKind::Error,
                    lexeme: "Nothing is read yet.".to_string(),
                    line: 0,
                },
                current: Token {
                    kind: TokenKind::Error,
                    lexeme: "Nothing is read yet.".to_string(),
                    line: 0,
                },
                had_error: false,
                panic_mode: false,
            },
            diagnostics: Vec::new(),
            ice: None,
        };
        assert(r@.diagnostics =~= Seq::empty());
        r
    }

    /// The errors reported so far, in order.
    pub fn diagnostics(&self) -> (r: &Vec<Diagnostic>)
        ensures
            r@.len() == self@.diagnostics.len(),
            forall|i: int| 0 <= i < r@.len() ==> (#[trigger] r@[i])@ == self@.diagnostics[i],
    {
        &self.diagnostics
    }

    /// Gives up the compiler for the errors that it has reported.
    pub fn into_diagnostics(self) -> (r: Vec<Diagnostic>)
        ensures
            r@.len() == self@.diagnostics.len(),
            forall|i: int| 0 <= i < r@.len() ==> (#[trigger] r@[i])@ == self@.diagnostics[i],
    {
        self.diagnostics
    }

    /// The error of the compiler itself that has come up first, if any.
    pub fn ice(&self) -> (r: Option<Ice>)
        ensures
            r == self@.ice,
    {
        self.ice
    }

    /// Compiles the source into a new chunk. `numbers` holds the values of
    /// the number literals of the source, in their order: the bit patterns of
    /// the binary64 numbers that they denote.
    ///
    /// Gives the chunk if no error was reported, and `Err(())` if one was: the
    /// reports are in `diagnostics`. The inputs on which the compilation
    /// fails by an error of its own are left out: `try_compile` takes them.
    /// There is no such error where a value is given for each number literal
    /// that `number_literals` finds, and these are 256 at most
    /// (`lemma_enough_numbers`).
    pub fn compile(&mut self, numbers: &Vec<u64>) -> (r: Result<Chunk, ()>)
        requires
            old(self).wf(),
            compilation(fresh(old(self)@), numbers@).parser.ice is None,
        ensures
            final(self).wf(),
            final(self)@ == compilation(fresh(old(self)@), numbers@).parser,
            r is Ok <==> !final(self)@.had_error,
            r is Ok ==> r->Ok_0@ == compilation(fresh(old(self)@), numbers@).chunk,
            r is Ok ==> is_program(r->Ok_0@),
            r is Ok ==> pool_follows(r->Ok_0@.constants, numbers@),
    {
        match self.try_compile(numbers) {
            Ok(compiled) => compiled,
            Err(_) => Err(()),
        }
    }

    /// Compiles the source into a new chunk, as `compile` does, on every
    /// input: where the compilation fails by an error of its own, that error
    /// is returned.
    pub fn try_compile(&mut self, numbers: &Vec<u64>) -> (r: Result<Result<Chunk, ()>, Ice>)
        requires
            old(self).wf(),
        ensures
            final(self).wf(),
            final(self)@ == compilation(fresh(old(self)@), numbers@).parser,
            match r {
                Err(ice) => final(self)@.ice == Some(ice),
                Ok(Err(_)) => final(self)@.ice is None && final(self)@.had_error,
                Ok(Ok(chunk)) => {
                    &&& healthy(final(self)@)
                    &&& chunk@ == compilation(fresh(old(self)@), numbers@).chunk
                    &&& is_program(chunk@)
                    &&& pool_follows(chunk@.constants, numbers@)
                },
            },
    {
        proof {
            lemma_compilation_makes_program(self@, numbers@);
        }
        let mut chunk = Chunk::new();
        assert(self.state(&chunk) == fresh(self@));

        self.advance();
        self.expression(&mut chunk, numbers);
        self.consume(TokenKind::EndOfFile, "Expect end of expression.");
        self.end_compiler(&mut chunk);
        self.parser.panic_mode = false;

        match self.ice {
            Some(ice) => Err(ice),
            None => if self.parser.had_error {
                Ok(Err(()))
            } else {
                Ok(Ok(chunk))
            },
        }
    }

    fn advance(&mut self)
        requires
            old(self).wf(),
        ensures
            final(self).wf(),
            final(self)@ == advance(old(self)@),
    {
        self.parser.previous = self.parser.current.clone();

        let ghost target = advance(old(self)@);
        loop
            invariant_except_break
                next_token(self@) == target,
            invariant
                self.wf(),
            ensures
                self.wf(),
                self@ == target,
            decreases self@.source.len() - self@.position,
        {
            proof {
                let start = after_blanks(self@.source, self@.position, false);
                lemma_after_blanks_bounds(self@.source, self@.position, false);
                lemma_token_bounds(self@.source, start);
            }
            self.parser.current = self.scanner.scan_token();
            if matches!(self.parser.current.kind, TokenKind::Error) {
                let message = self.parser.current.lexeme.clone();
                self.error_at_current(message.as_str());
            } else {
                break ;
            }
        }
    }

    fn consume(&mut self, token_kind: TokenKind, message: &str)
        requires
            old(self).wf(),
        ensures
            final(self).wf(),
            final(self)@ == consume(old(self)@, token_kind, message@),
    {
        if self.parser.current.kind == token_kind {
            self.advance();
        } else {
            self.error_at_current(message);
        }
    }

    fn emit_byte(&self, chunk: &mut Chunk, byte: u8)
        ensures
            self.state(final(chunk)) == self.state(old(chunk)).emit(byte),
    {
        chunk.write(byte, #[verifier::truncate] (self.parser.previous.line as u32));
    }

    fn emit_bytes(&self, chunk: &mut Chunk, first: u8, second: u8)
        ensures
            self.state(final(chunk)) == self.state(old(chunk)).emit(first).emit(second),
    {
        self.emit_byte(chunk, first);
        self.emit_byte(chunk, second);
    }

    fn end_compiler(&self, chunk: &mut Chunk)
        ensures
            self.state(final(chunk)) == self.state(old(chunk)).emit_op(OpCode::Return),
    {
        self.emit_return(chunk);
    }

    fn binary(&mut self, chunk: &mut Chunk, numbers: &Vec<u64>)
        requires
            old(self).wf(),
            precedence_of(old(self)@.previous.kind) != Precedence::Lowest,
        ensures
            final(self).wf(),
            final(self).state(final(chunk)) == infix_rule(
                old(self).state(old(chunk)),
                numbers@,
            ),
        decreases remaining(old(self)@) + 1, 3nat,
    {
        let operator_type = self.parser.previous.kind;
        let precedence = self.get_rule_precedence(operator_type).plus_one();
        self.parse_precedence(chunk, precedence, numbers);

        match operator_type {
            TokenKind::Plus => {
                self.emit_byte(chunk, OpCode::Add.byte());
            },
            TokenKind::Minus => {
                self.emit_byte(chunk, OpCode::Subtract.byte());
            },
            TokenKind::Star => {
                self.emit_byte(chunk, OpCode::Multiply.byte());
            },
            TokenKind::Slash => {
                self.emit_byte(chunk, OpCode::Divide.byte());
            },
            TokenKind::BangEqual => {
                self.emit_bytes(chunk, OpCode::Equal.byte(), OpCode::Not.byte());
            },
            TokenKind::EqualEqual => {
                self.emit_byte(chunk, OpCode::Equal.byte());
            },
            TokenKind::Greater => {
                self.emit_byte(chunk, OpCode::Greater.byte());
            },
            // `a >= b` is `!(a < b)`: true as soon as either is a NaN
            TokenKind::GreaterEqual => {
                self.emit_bytes(chunk, OpCode::Less.byte(), OpCode::Not.byte());
            },
            TokenKind::Less => {
                self.emit_byte(chunk, OpCode::Less.byte());
            },
            // `a <= b` is `!(a > b)`: true as soon as either is a NaN
            _ => {
                self.emit_bytes(chunk, OpCode::Greater.byte(), OpCode::Not.byte());
            },
        }
    }

    fn literal(&mut self, chunk: &mut Chunk)
        requires
            old(self)@.previous.kind == TokenKind::False || old(self)@.previous.kind
                == TokenKind::True || old(self)@.previous.kind == TokenKind::Nil,
        ensures
            *final(self) == *old(self),
            final(self).state(final(chunk)) == prefix_rule(old(self).state(old(chunk)), seq![]),
    {
        let operator_type = self.parser.previous.kind;

        match operator_type {
            TokenKind::False => {
                self.emit_byte(chunk, OpCode::False.byte());
            },
            TokenKind::True => {
                self.emit_byte(chunk, OpCode::True.byte());
            },
            _ => {
                self.emit_byte(chunk, OpCode::Nil.byte());
            },
        }
    }

    fn grouping(&mut self, chunk: &mut Chunk, numbers: &Vec<u64>)
        requires
            old(self).wf(),
            old(self)@.previous.kind == TokenKind::LeftParen,
        ensures
            final(self).wf(),
            final(self).state(final(chunk)) == prefix_rule(
                old(self).state(old(chunk)),
                numbers@,
            ),
        decreases remaining(old(self)@) + 1, 3nat,
    {
        self.expression(chunk, numbers);
        self.consume(TokenKind::RightParen, "Expect ')' after expression.");
    }

    fn number(&mut self, chunk: &mut Chunk, numbers: &Vec<u64>)
        requires
            old(self).wf(),
        ensures
            final(self).wf(),
            final(self).state(final(chunk)) == old(self).state(old(chunk)).emit_number(numbers@),
    {
        let index = chunk.constants().len();
        if index >= numbers.len() {
            self.fail(Ice::NumberWithoutValue);
        } else {
            self.emit_constant(chunk, Value::Number(numbers[index]));
        }
    }

    fn unary(&mut self, chunk: &mut Chunk, numbers: &Vec<u64>)
        requires
            old(self).wf(),
            old(self)@.previous.kind == TokenKind::Minus || old(self)@.previous.kind
                == TokenKind::Bang,
        ensures
            final(self).wf(),
            final(self).state(final(chunk)) == prefix_rule(
                old(self).state(old(chunk)),
                numbers@,
            ),
        decreases remaining(old(self)@) + 1, 3nat,
    {
        let operator_type = self.parser.previous.kind;

        self.parse_precedence(chunk, Precedence::Unary, numbers);

        match operator_type {
            TokenKind::Minus => {
                self.emit_byte(chunk, OpCode::Negate.byte());
            },
            _ => {
                self.emit_byte(chunk, OpCode::Not.byte());
            },
        }
    }

    fn emit_return(&self, chunk: &mut Chunk)
        ensures
            self.state(final(chunk)) == self.state(old(chunk)).emit_op(OpCode::Return),
    {
        self.emit_byte(chunk, OpCode::Return.byte());
    }

    /// Interns `value`, and gives its index if that fits in one byte.
    fn make_constant(&self, chunk: &mut Chunk, value: Value) -> (index: Option<u8>)
        ensures
            final(chunk)@.code == old(chunk)@.code,
            final(chunk)@.lines == old(chunk)@.lines,
            old(chunk)@.constants.len() < 256 ==> index == Some(old(chunk)@.constants.len() as u8)
                && final(chunk)@.constants == old(chunk)@.constants.push(value),
            old(chunk)@.constants.len() >= 256 ==> index is None && final(chunk)@.constants
                == old(chunk)@.constants,
    {
        if chunk.constants().len() >= 256 {
            return None;
        }
        let constant = chunk.constants_mut().add(value);
        Some(constant as u8)
    }

    fn emit_constant(&mut self, chunk: &mut Chunk, value: Value)
        ensures
            final(self).wf() == old(self).wf(),
            old(chunk)@.constants.len() < 256 ==> *final(self) == *old(self) && final(self).state(
                final(chunk),
            ) == (State {
                chunk: ChunkView {
                    constants: old(chunk)@.constants.push(value),
                    ..old(chunk)@
                },
                ..old(self).state(old(chunk))
            }).emit_op(OpCode::Constant).emit(old(chunk)@.constants.len() as u8),
            old(chunk)@.constants.len() >= 256 ==> final(chunk)@ == old(chunk)@ && final(self)@
                == fail(old(self)@, Ice::TooManyConstants),
    {
        match self.make_constant(chunk, value) {
            Some(constant_index) => {
                self.emit_bytes(chunk, OpCode::Constant.byte(), constant_index);
            },
            None => {
                self.fail(Ice::TooManyConstants);
            },
        }
    }

    /// Notes an error of the compiler itself, unless one is noted.
    fn fail(&mut self, ice: Ice)
        ensures
            final(self).wf() == old(self).wf(),
            final(self)@ == fail(old(self)@, ice),
    {
        if self.ice.is_none() {
            self.ice = Some(ice);
        }
    }

    fn expression(&mut self, chunk: &mut Chunk, numbers: &Vec<u64>)
        requires
            old(self).wf(),
        ensures
            final(self).wf(),
            final(self).state(final(chunk)) == parse_precedence(
                old(self).state(old(chunk)),
                Precedence::Assignment,
                numbers@,
            ),
        decreases remaining(old(self)@) + 1, 2nat,
    {
        self.parse_precedence(chunk, Precedence::Assignment, numbers);
    }

    fn parse_precedence(&mut self, chunk: &mut Chunk, precedence: Precedence, numbers: &Vec<u64>)
        requires
            old(self).wf(),
            precedence != Precedence::Lowest,
        ensures
            final(self).wf(),
            final(self).state(final(chunk)) == parse_precedence(
                old(self).state(old(chunk)),
                precedence,
                numbers@,
            ),
        decreases remaining(old(self)@), 5nat,
    {
        let ghost start = self.state(chunk);
        proof {
            lemma_advance_consumes(self@);
            lemma_parse_consumes(start, precedence, numbers@);
            lemma_prefix_consumes(start.with(advance(start.parser)), numbers@);
        }
        self.advance();
        let kind = self.parser.previous.kind;
        self.do_rule_prefix(chunk, kind, numbers);

        let ghost target = parse_precedence(start, precedence, numbers@);
        while precedence.rank() <= self.get_rule_precedence(self.parser.current.kind).rank()
            invariant
                self.wf(),
                precedence != Precedence::Lowest,
                start.parser == old(self)@,
                remaining(self@) <= remaining(start.parser),
                infix_loop(self.state(chunk), precedence, numbers@) == target,
            decreases remaining(self@),
        {
            proof {
                lemma_advance_consumes(self@);
                lemma_infix_consumes(self.state(chunk).with(advance(self@)), numbers@);
            }
            self.advance();
            let kind = self.parser.previous.kind;
            self.do_rule_infix(chunk, kind, numbers);
        }
    }

    fn get_rule_precedence(&self, kind: TokenKind) -> (r: Precedence)
        ensures
            r == precedence_of(kind),
    {
        match kind {
            TokenKind::Minus | TokenKind::Plus => Precedence::Term,
            TokenKind::Slash | TokenKind::Star => Precedence::Factor,
            TokenKind::BangEqual | TokenKind::EqualEqual => Precedence::Equality,
            TokenKind::Greater
            | TokenKind::GreaterEqual
            | TokenKind::Less
            | TokenKind::LessEqual => Precedence::Comparison,
            _ => Precedence::Lowest,
        }
    }

    fn do_rule_prefix(&mut self, chunk: &mut Chunk, kind: TokenKind, numbers: &Vec<u64>)
        requires
            old(self).wf(),
            kind == old(self)@.previous.kind,
        ensures
            final(self).wf(),
            final(self).state(final(chunk)) == prefix_rule(
                old(self).state(old(chunk)),
                numbers@,
            ),
        decreases
            remaining(old(self)@) + (if opens_operand(old(self)@.previous.kind) {
                1nat
            } else {
                0nat
            }),
            4nat,
    {
        match kind {
            TokenKind::LeftParen => {
                self.grouping(chunk, numbers);
            },
            TokenKind::Minus | TokenKind::Bang => {
                self.unary(chunk, numbers);
            },
            TokenKind::Number => {
                self.number(chunk, numbers);
            },
            TokenKind::False | TokenKind::True | TokenKind::Nil => {
                self.literal(chunk);
            },
            _ => {
                self.error("Expect expression.");
            },
        }
    }

    fn do_rule_infix(&mut self, chunk: &mut Chunk, kind: TokenKind, numbers: &Vec<u64>)
        requires
            old(self).wf(),
            kind == old(self)@.previous.kind,
        ensures
            final(self).wf(),
            final(self).state(final(chunk)) == infix_rule(
                old(self).state(old(chunk)),
                numbers@,
            ),
        decreases
            remaining(old(self)@) + (if precedence_of(old(self)@.previous.kind)
                != Precedence::Lowest {
                1nat
            } else {
                0nat
            }),
            4nat,
    {
        match kind {
            TokenKind::Minus
            | TokenKind::Plus
            | TokenKind::Slash
            | TokenKind::Star
            | TokenKind::BangEqual
            | TokenKind::EqualEqual
            | TokenKind::Greater
            | TokenKind::GreaterEqual
            | TokenKind::Less
            | TokenKind::LessEqual => {
                self.binary(chunk, numbers);
            },
            _ => {
                self.error("Expect expression.");
            },
        }
    }

    fn error_at_current(&mut self, message: &str)
        ensures
            final(self).wf() == old(self).wf(),
            final(self)@ == report(old(self)@, old(self)@.current, message@),
    {
        let token = self.parser.current.clone();
        self.error_at(token, message);
    }

    fn error(&mut self, message: &str)
        ensures
            final(self).wf() == old(self).wf(),
            final(self)@ == report(old(self)@, old(self)@.previous, message@),
    {
        let token = self.parser.previous.clone();
        self.error_at(token, message);
    }

    fn error_at(&mut self, token: Token, message: &str)
        ensures
            final(self).wf() == old(self).wf(),
            final(self)@ == report(old(self)@, token@, message@),
    {
        if self.parser.panic_mode {
            // no report of what follows from an error already reported
            return ;
        }
        self.parser.panic_mode = true;
        self.diagnostics.push(Diagnostic { token, message: message.to_owned() });
        self.parser.had_error = true;
        assert(self@.diagnostics =~= old(self)@.diagnostics.push(
            DiagnosticView { token: token@, message: message@ },
        ));
    }
}

} // verus!
