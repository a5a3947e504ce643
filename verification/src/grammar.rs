//! The grammar of the language, and what the compiler makes of it: every
//! source that compiles is an expression of this grammar, and its chunk is
//! the code of that expression.
use vstd::prelude::*;
use crate::chunk::OpCode;
use crate::compiler::{
    CompilerView, Precedence, State, advance, compilation, healthy, in_source, infix_loop,
    infix_rule, initial, lemma_enough_numbers, number_lexemes, lemma_advance_consumes, lemma_advance_owed, lemma_advance_sane,
    lemma_infix_consumes, lemma_infix_loop_consumes, lemma_infix_owed, lemma_infix_shape,
    lemma_next_token_consumes, lemma_next_token_owed, lemma_parse_consumes, lemma_parse_owed, lemma_parse_shape,
    lemma_prefix_consumes, lemma_prefix_owed, lemma_prefix_shape, next_token, opens_operand,
    parse_precedence, precedence_of, prefix_rule, remaining, report, sane,
};
use crate::scanner::{
    TokenKind, after_blanks, end_at, kind_at, lemma_after_blanks_bounds, lemma_token_bounds,
    token_at, tokens_from,
};

verus! {

// ---------------------------------------------------------------------------
// The expressions of the language
// ---------------------------------------------------------------------------

/// An expression of the language.
pub enum Expr {
    /// A number literal.
    Number,
    Nil,
    True,
    False,
    /// An expression in parentheses.
    Group(Box<Expr>),
    /// `-` in front of its operand.
    Negate(Box<Expr>),
    /// `!` in front of its operand.
    Not(Box<Expr>),
    /// A binary operator, given by its token, between its two operands.
    Binary(TokenKind, Box<Expr>, Box<Expr>),
}

/// The tokens that an expression is written with, in their order.
pub open spec fn tokens_of(e: Expr) -> Seq<TokenKind>
    decreases e,
{
    match e {
        Expr::Number => seq![TokenKind::Number],
        Expr::Nil => seq![TokenKind::Nil],
        Expr::True => seq![TokenKind::True],
        Expr::False => seq![TokenKind::False],
        Expr::Group(inner) => seq![TokenKind::LeftParen] + tokens_of(*inner) + seq![
            TokenKind::RightParen,
        ],
        Expr::Negate(operand) => seq![TokenKind::Minus] + tokens_of(*operand),
        Expr::Not(operand) => seq![TokenKind::Bang] + tokens_of(*operand),
        Expr::Binary(operator, left, right) => tokens_of(*left) + seq![operator] + tokens_of(
            *right,
        ),
    }
}

/// The number of number literals in an expression.
pub open spec fn literal_count(e: Expr) -> nat
    decreases e,
{
    match e {
        Expr::Number => 1,
        Expr::Nil | Expr::True | Expr::False => 0,
        Expr::Group(inner) => literal_count(*inner),
        Expr::Negate(operand) => literal_count(*operand),
        Expr::Not(operand) => literal_count(*operand),
        Expr::Binary(_, left, right) => literal_count(*left) + literal_count(*right),
    }
}

/// The instructions of a binary operator, which follow the code of its
/// operands.
pub open spec fn operator_code(operator: TokenKind) -> Seq<u8> {
    match operator {
        TokenKind::Plus => seq![OpCode::Add.spec_byte()],
        TokenKind::Minus => seq![OpCode::Subtract.spec_byte()],
        TokenKind::Star => seq![OpCode::Multiply.spec_byte()],
        TokenKind::Slash => seq![OpCode::Divide.spec_byte()],
        TokenKind::BangEqual => seq![OpCode::Equal.spec_byte(), OpCode::Not.spec_byte()],
        TokenKind::EqualEqual => seq![OpCode::Equal.spec_byte()],
        TokenKind::Greater => seq![OpCode::Greater.spec_byte()],
        TokenKind::GreaterEqual => seq![OpCode::Less.spec_byte(), OpCode::Not.spec_byte()],
        TokenKind::Less => seq![OpCode::Less.spec_byte()],
        TokenKind::LessEqual => seq![OpCode::Greater.spec_byte(), OpCode::Not.spec_byte()],
        _ => Seq::empty(),
    }
}

/// The code of an expression in a chunk that holds `first` constants
/// before those of the expression: the code of the operands from left to
/// right, then the instruction of the operator. A number literal loads the
/// constant made of it, and the constants are made in the order of the
/// literals.
pub open spec fn code_of(e: Expr, first: nat) -> Seq<u8>
    decreases e,
{
    match e {
        Expr::Number => seq![OpCode::Constant.spec_byte(), first as u8],
        Expr::Nil => seq![OpCode::Nil.spec_byte()],
        Expr::True => seq![OpCode::True.spec_byte()],
        Expr::False => seq![OpCode::False.spec_byte()],
        Expr::Group(inner) => code_of(*inner, first),
        Expr::Negate(operand) => code_of(*operand, first) + seq![OpCode::Negate.spec_byte()],
        Expr::Not(operand) => code_of(*operand, first) + seq![OpCode::Not.spec_byte()],
        Expr::Binary(operator, left, right) => code_of(*left, first) + code_of(
            *right,
            first + literal_count(*left),
        ) + operator_code(operator),
    }
}

/// How tightly the expression is bound at its top: as its operator binds
/// if it is a binary operation, and as tightly as can be otherwise.
pub open spec fn level(e: Expr) -> u8 {
    match e {
        Expr::Binary(operator, _, _) => precedence_of(operator).spec_rank(),
        _ => Precedence::Primary.spec_rank(),
    }
}

/// Whether the expression is written without parentheses that it would
/// need to be read as it is, where an operand is asked for that binds at
/// least as tightly as rank `min`:
///
/// * the operand of `-` and `!` is no binary operation;
/// * the left operand of a binary operator binds at least as tightly as the
///   operator, and the right operand more tightly: operators of one
///   precedence group to the left;
/// * in parentheses stands any expression.
pub open spec fn fits(e: Expr, min: u8) -> bool
    decreases e,
{
    match e {
        Expr::Number | Expr::Nil | Expr::True | Expr::False => true,
        Expr::Group(inner) => fits(*inner, Precedence::Assignment.spec_rank()),
        Expr::Negate(operand) => fits(*operand, Precedence::Unary.spec_rank()),
        Expr::Not(operand) => fits(*operand, Precedence::Unary.spec_rank()),
        Expr::Binary(operator, left, right) => {
            &&& precedence_of(operator) != Precedence::Lowest
            &&& min <= precedence_of(operator).spec_rank()
            &&& fits(*left, precedence_of(operator).spec_rank())
            &&& fits(*right, (precedence_of(operator).spec_rank() + 1) as u8)
        },
    }
}

/// The kinds of the tokens that a scanner at `pos` gives one after the
/// other, up to the first `EndOfFile`.
pub open spec fn kinds_from(src: Seq<u8>, pos: int) -> Seq<TokenKind>
    decreases src.len() - pos,
{
    let start = after_blanks(src, pos, false);
    let end = end_at(src, start);
    if pos < 0 || start >= src.len() || end <= pos {
        seq![kind_at(src, start)]
    } else {
        proof {
            if pos <= src.len() {
                lemma_after_blanks_bounds(src, pos, false);
                lemma_token_bounds(src, start);
            }
        }
        seq![kind_at(src, start)] + kinds_from(src, end)
    }
}

/// The kinds of the tokens are those of the tokens that the scanner gives.
pub proof fn lemma_kinds_of_tokens(src: Seq<u8>, pos: int)
    ensures
        kinds_from(src, pos).len() == tokens_from(src, pos).len(),
        forall|i: int|
            0 <= i < kinds_from(src, pos).len() ==> #[trigger] kinds_from(src, pos)[i]
                == tokens_from(src, pos)[i].kind,
    decreases src.len() - pos,
{
    let start = after_blanks(src, pos, false);
    let end = end_at(src, start);
    if !(pos < 0 || start >= src.len() || end <= pos) {
        if pos <= src.len() {
            lemma_after_blanks_bounds(src, pos, false);
            lemma_token_bounds(src, start);
        }
        lemma_kinds_of_tokens(src, end);
    }
}

// ---------------------------------------------------------------------------
// Every source that compiles is an expression
// ---------------------------------------------------------------------------

/// The kinds of the tokens that a compilation has still to read: the
/// current token, and those behind it.
pub open spec fn stream(p: CompilerView) -> Seq<TokenKind> {
    if p.current.kind == TokenKind::EndOfFile {
        seq![TokenKind::EndOfFile]
    } else {
        seq![p.current.kind] + kinds_from(p.source, p.position)
    }
}

/// Where scanning on reports no error, the token that it comes to is the
/// next token of the source.
proof fn lemma_next_token_stream(p: CompilerView)
    requires
        in_source(p),
        sane(p),
        !next_token(p).had_error,
    ensures
        stream(next_token(p)) == kinds_from(p.source, p.position),
{
    let start = after_blanks(p.source, p.position, false);
    let token = token_at(p.source, start);
    let end = end_at(p.source, start);
    let scanned = CompilerView { current: token, position: end, ..p };
    lemma_after_blanks_bounds(p.source, p.position, false);
    lemma_token_bounds(p.source, start);
    if token.kind == TokenKind::Error {
        lemma_next_token_consumes(report(scanned, token, token.lexeme));
    }
}

/// Where advancing reports no error, it goes from one token of the source
/// to the next.
proof fn lemma_advance_stream(p: CompilerView)
    requires
        in_source(p),
        sane(p),
        !advance(p).had_error,
    ensures
        stream(advance(p)) == kinds_from(p.source, p.position),
        p.current.kind != TokenKind::EndOfFile ==> stream(p) == seq![p.current.kind] + stream(
            advance(p),
        ),
        advance(p).previous == p.current,
{
    lemma_next_token_stream(CompilerView { previous: p.current, ..p });
    lemma_advance_consumes(p);
}

/// An expression that fits where a rank is asked for fits wherever no
/// higher rank is asked for than that of its top.
proof fn lemma_fits_at_level(e: Expr, min: u8, other: u8)
    requires
        fits(e, min),
        other <= level(e),
    ensures
        fits(e, other),
{
}

/// What a binary operator emits is its code.
proof fn lemma_emit_binary_code(s: State, operator: TokenKind)
    ensures
        s.emit_binary(operator).chunk.code == s.chunk.code + operator_code(operator),
        s.emit_binary(operator).chunk.constants == s.chunk.constants,
        s.emit_binary(operator).parser == s.parser,
{
    assert(s.emit_binary(operator).chunk.code =~= s.chunk.code + operator_code(operator));
}

/// The expression that `parse_precedence` reads, where it reads one.
spec fn tree_of(s: State, min: Precedence, numbers: Seq<u64>) -> Expr
    decreases remaining(s.parser), 2nat,
{
    let a = {
        proof {
            lemma_advance_consumes(s.parser);
        }
        s.with(advance(s.parser))
    };
    let operand = prefix_rule(a, numbers);
    if remaining(operand.parser) <= remaining(s.parser) {
        tree_behind(operand, operand_tree(a, numbers), min, numbers)
    } else {
        operand_tree(a, numbers)
    }
}

/// The expression that `prefix_rule` reads, where it reads one.
spec fn operand_tree(s: State, numbers: Seq<u64>) -> Expr
    decreases
        remaining(s.parser) + (if opens_operand(s.parser.previous.kind) {
            1nat
        } else {
            0nat
        }),
        0nat,
{
    match s.parser.previous.kind {
        TokenKind::LeftParen => Expr::Group(
            Box::new(tree_of(s, Precedence::Assignment, numbers)),
        ),
        TokenKind::Minus => Expr::Negate(Box::new(tree_of(s, Precedence::Unary, numbers))),
        TokenKind::Bang => Expr::Not(Box::new(tree_of(s, Precedence::Unary, numbers))),
        TokenKind::Number => Expr::Number,
        TokenKind::False => Expr::False,
        TokenKind::True => Expr::True,
        _ => Expr::Nil,
    }
}

/// The expression that `infix_loop` makes of the expression `left` that
/// has been read and the operators behind it.
spec fn tree_behind(s: State, left: Expr, min: Precedence, numbers: Seq<u64>) -> Expr
    decreases remaining(s.parser), 1nat,
{
    if min.rank() <= precedence_of(s.parser.current.kind).rank() {
        let a = {
            proof {
                lemma_advance_consumes(s.parser);
            }
            s.with(advance(s.parser))
        };
        let done = infix_rule(a, numbers);
        let tree = if precedence_of(a.parser.previous.kind) != Precedence::Lowest {
            Expr::Binary(
                a.parser.previous.kind,
                Box::new(left),
                Box::new(
                    tree_of(a, precedence_of(a.parser.previous.kind).spec_plus_one(), numbers),
                ),
            )
        } else {
            left
        };
        if remaining(done.parser) < remaining(s.parser) {
            tree_behind(done, tree, min, numbers)
        } else {
            tree
        }
    } else {
        left
    }
}

/// Whether `after` is `before` with the expression `e` read and compiled:
/// the tokens of `e` are those that were read, and its code and constants
/// are what was added to the chunk.
#[verifier::opaque]
spec fn compiled(before: State, after: State, e: Expr) -> bool {
    &&& stream(before.parser) == tokens_of(e) + stream(after.parser)
    &&& after.chunk.code == before.chunk.code + code_of(e, before.chunk.constants.len())
    &&& after.chunk.constants.len() == before.chunk.constants.len() + literal_count(e)
}

/// An operand is an expression that fits wherever an operand is asked
/// for, and behind it any operator can follow.
proof fn lemma_operand_starts(s: State, a: State, operand: State, first: Expr, min: u8)
    requires
        is_operand(a, operand, first),
        a.chunk == s.chunk,
        min <= Precedence::Primary.spec_rank(),
    ensures
        fits(first, min),
        precedence_of(operand.parser.current.kind).spec_rank() <= level(first),
        operand.chunk.code == s.chunk.code + code_of(first, s.chunk.constants.len()),
        operand.chunk.constants.len() == s.chunk.constants.len() + literal_count(first),
{
    reveal(is_operand);
    lemma_fits_at_level(first, 0, min);
}

/// An operand and what is read behind it are the expression that was read.
proof fn lemma_operand_goes_on(
    s: State,
    a: State,
    operand: State,
    first: Expr,
    r: State,
    e: Expr,
)
    requires
        is_operand(a, operand, first),
        a.chunk == s.chunk,
        stream(s.parser) == seq![a.parser.previous.kind] + stream(a.parser),
        goes_on(operand, first, r, e, s.chunk.code, s.chunk.constants.len()),
    ensures
        compiled(s, r, e),
{
    reveal(is_operand);
    reveal(goes_on);
    reveal(compiled);
}

/// What is read behind what was read behind an expression was read behind
/// that expression.
proof fn lemma_goes_on_further(
    s: State,
    left: Expr,
    done: State,
    tree: Expr,
    r: State,
    e: Expr,
    base: Seq<u8>,
    first: nat,
)
    requires
        goes_on(s, left, done, tree, base, first),
        goes_on(done, tree, r, e, base, first),
    ensures
        goes_on(s, left, r, e, base, first),
{
    reveal(goes_on);
}

/// Nothing read behind an expression leaves the expression.
proof fn lemma_goes_on_nowhere(s: State, left: Expr, base: Seq<u8>, first: nat)
    requires
        s.chunk.code == base + code_of(left, first),
        s.chunk.constants.len() == first + literal_count(left),
    ensures
        goes_on(s, left, s, left, base, first),
{
    reveal(goes_on);
}

/// What was read and compiled is in the chunk.
proof fn lemma_compiled_is_in_chunk(before: State, after: State, e: Expr)
    requires
        compiled(before, after, e),
    ensures
        stream(before.parser) == tokens_of(e) + stream(after.parser),
        after.chunk.code == before.chunk.code + code_of(e, before.chunk.constants.len()),
        after.chunk.constants.len() == before.chunk.constants.len() + literal_count(e),
{
    reveal(compiled);
}

/// What was read behind an expression is in the chunk.
proof fn lemma_goes_on_is_in_chunk(
    s: State,
    left: Expr,
    after: State,
    e: Expr,
    base: Seq<u8>,
    first: nat,
)
    requires
        goes_on(s, left, after, e, base, first),
    ensures
        after.chunk.code == base + code_of(e, first),
        after.chunk.constants.len() == first + literal_count(e),
{
    reveal(goes_on);
}

/// What `parse_precedence` reads without an error is an expression that
/// fits where it was asked for, and the next token is no operator that could
/// go on with it.
proof fn lemma_tree_of(s: State, min: Precedence, numbers: Seq<u64>)
    requires
        sane(s.parser),
        in_source(s.parser),
        min != Precedence::Lowest,
    ensures
        healthy(parse_precedence(s, min, numbers).parser) ==> {
            &&& fits(tree_of(s, min, numbers), min.spec_rank())
            &&& compiled(s, parse_precedence(s, min, numbers), tree_of(s, min, numbers))
            &&& precedence_of(parse_precedence(s, min, numbers).parser.current.kind).spec_rank()
                < min.spec_rank()
        },
    decreases remaining(s.parser), 2nat,
{
    let a = s.with(advance(s.parser));
    let operand = prefix_rule(a, numbers);
    let r = parse_precedence(s, min, numbers);
    lemma_advance_consumes(s.parser);
    lemma_advance_sane(s.parser);
    lemma_advance_owed(s);
    lemma_prefix_consumes(a, numbers);
    lemma_prefix_shape(a, numbers);
    lemma_prefix_owed(a, numbers);
    lemma_infix_loop_consumes(operand, min, numbers);
    if healthy(r.parser) {
        lemma_advance_stream(s.parser);
        lemma_operand_tree(a, numbers);
        let first = operand_tree(a, numbers);
        lemma_operand_starts(s, a, operand, first, min.spec_rank());
        lemma_tree_behind(operand, first, min, numbers, s.chunk.code, s.chunk.constants.len());
        lemma_operand_goes_on(s, a, operand, first, r, tree_of(s, min, numbers));
    }
}

/// What an operand is, once it is read: see `lemma_operand_tree`.
#[verifier::opaque]
spec fn is_operand(before: State, after: State, e: Expr) -> bool {
    &&& fits(e, 0)
    &&& level(e) == Precedence::Primary.spec_rank()
    &&& seq![before.parser.previous.kind] + stream(before.parser) == tokens_of(e) + stream(
        after.parser,
    )
    &&& after.chunk.code == before.chunk.code + code_of(e, before.chunk.constants.len())
    &&& after.chunk.constants.len() == before.chunk.constants.len() + literal_count(e)
}

/// An expression in parentheses that are closed is an operand.
proof fn lemma_group_is_operand(s: State, inner: State, x: Expr, closed: CompilerView)
    requires
        s.parser.previous.kind == TokenKind::LeftParen,
        fits(x, Precedence::Assignment.spec_rank()),
        compiled(s, inner, x),
        inner.parser.current.kind == TokenKind::RightParen,
        stream(inner.parser) == seq![TokenKind::RightParen] + stream(closed),
    ensures
        is_operand(s, inner.with(closed), Expr::Group(Box::new(x))),
{
    reveal(compiled);
    reveal(is_operand);
    let e = Expr::Group(Box::new(x));
    assert(seq![s.parser.previous.kind] + stream(s.parser) =~= tokens_of(e) + stream(closed));
}

/// The operand of `-` or `!`, with the operator in front of it and its
/// instruction behind it, is an operand.
proof fn lemma_unary_is_operand(s: State, inner: State, x: Expr, after: State, e: Expr)
    requires
        fits(x, Precedence::Unary.spec_rank()),
        compiled(s, inner, x),
        s.parser.previous.kind == TokenKind::Minus && after == inner.emit_op(OpCode::Negate)
            && e == Expr::Negate(Box::new(x)) || s.parser.previous.kind == TokenKind::Bang
            && after == inner.emit_op(OpCode::Not) && e == Expr::Not(Box::new(x)),
    ensures
        is_operand(s, after, e),
{
    reveal(compiled);
    reveal(is_operand);
    assert(seq![s.parser.previous.kind] + stream(s.parser) =~= tokens_of(e) + stream(
        after.parser,
    ));
    assert(after.chunk.code =~= s.chunk.code + code_of(e, s.chunk.constants.len()));
}

/// A literal is an operand.
proof fn lemma_literal_is_operand(s: State, numbers: Seq<u64>)
    requires
        s.parser.previous.kind == TokenKind::Number || s.parser.previous.kind == TokenKind::False
            || s.parser.previous.kind == TokenKind::True || s.parser.previous.kind
            == TokenKind::Nil,
        healthy(prefix_rule(s, numbers).parser),
    ensures
        is_operand(s, prefix_rule(s, numbers), operand_tree(s, numbers)),
{
    reveal(is_operand);
    let r = prefix_rule(s, numbers);
    let e = operand_tree(s, numbers);
    assert(r.chunk.code =~= s.chunk.code + code_of(e, s.chunk.constants.len()));
}

/// What `prefix_rule` reads without an error is an operand: an expression
/// that is no binary operation.
proof fn lemma_operand_tree(s: State, numbers: Seq<u64>)
    requires
        sane(s.parser),
        in_source(s.parser),
    ensures
        healthy(prefix_rule(s, numbers).parser) ==> is_operand(
            s,
            prefix_rule(s, numbers),
            operand_tree(s, numbers),
        ),
    decreases
        remaining(s.parser) + (if opens_operand(s.parser.previous.kind) {
            1nat
        } else {
            0nat
        }),
        0nat,
{
    let r = prefix_rule(s, numbers);
    if healthy(r.parser) {
        let kind = s.parser.previous.kind;
        if kind == TokenKind::LeftParen {
            let inner = parse_precedence(s, Precedence::Assignment, numbers);
            let x = tree_of(s, Precedence::Assignment, numbers);
            lemma_parse_shape(s, Precedence::Assignment, numbers);
            lemma_parse_owed(s, Precedence::Assignment, numbers);
            lemma_advance_consumes(inner.parser);
            lemma_tree_of(s, Precedence::Assignment, numbers);
            lemma_advance_stream(inner.parser);
            lemma_group_is_operand(s, inner, x, r.parser);
        } else if kind == TokenKind::Minus || kind == TokenKind::Bang {
            let inner = parse_precedence(s, Precedence::Unary, numbers);
            let x = tree_of(s, Precedence::Unary, numbers);
            lemma_tree_of(s, Precedence::Unary, numbers);
            lemma_unary_is_operand(s, inner, x, r, operand_tree(s, numbers));
        } else if kind == TokenKind::Number || kind == TokenKind::False || kind == TokenKind::True
            || kind == TokenKind::Nil {
            lemma_literal_is_operand(s, numbers);
        }
    }
}

/// What is read behind an expression, once it is read: see
/// `lemma_tree_behind`.
#[verifier::opaque]
spec fn goes_on(s: State, left: Expr, after: State, e: Expr, base: Seq<u8>, first: nat) -> bool {
    &&& tokens_of(left) + stream(s.parser) == tokens_of(e) + stream(after.parser)
    &&& after.chunk.code == base + code_of(e, first)
    &&& after.chunk.constants.len() == first + literal_count(e)
}

/// An expression, a binary operator that binds no tighter than it, and a
/// right operand that binds tighter than the operator make an expression.
proof fn lemma_binary_goes_on(
    s: State,
    left: Expr,
    a: State,
    right: State,
    x: Expr,
    min: u8,
    base: Seq<u8>,
    first: nat,
)
    requires
        fits(left, min),
        precedence_of(s.parser.current.kind) != Precedence::Lowest,
        min <= precedence_of(s.parser.current.kind).spec_rank() <= level(left),
        s.chunk.code == base + code_of(left, first),
        s.chunk.constants.len() == first + literal_count(left),
        a.chunk == s.chunk,
        stream(s.parser) == seq![s.parser.current.kind] + stream(a.parser),
        fits(x, (precedence_of(s.parser.current.kind).spec_rank() + 1) as u8),
        compiled(a, right, x),
    ensures
        fits(Expr::Binary(s.parser.current.kind, Box::new(left), Box::new(x)), min),
        goes_on(
            s,
            left,
            right.emit_binary(s.parser.current.kind),
            Expr::Binary(s.parser.current.kind, Box::new(left), Box::new(x)),
            base,
            first,
        ),
{
    reveal(compiled);
    reveal(goes_on);
    let operator = s.parser.current.kind;
    let tree = Expr::Binary(operator, Box::new(left), Box::new(x));
    let done = right.emit_binary(operator);
    lemma_emit_binary_code(right, operator);
    lemma_fits_at_level(left, min, precedence_of(operator).spec_rank());
    assert(done.chunk.code =~= base + code_of(tree, first));
    assert(tokens_of(left) + stream(s.parser) =~= tokens_of(tree) + stream(done.parser));
}

/// One round of `infix_loop` that ends without an error: the current
/// token is a binary operator, which is read, its right operand is parsed one
/// level tighter, its instructions are emitted, and the loop goes on from
/// there.
proof fn lemma_operator_step(s: State, min: Precedence, numbers: Seq<u64>)
    requires
        sane(s.parser),
        in_source(s.parser),
        min != Precedence::Lowest,
        min.spec_rank() <= precedence_of(s.parser.current.kind).spec_rank(),
        healthy(infix_loop(s, min, numbers).parser),
    ensures
        ({
            let operator = s.parser.current.kind;
            let tighter = precedence_of(operator).spec_plus_one();
            let a = s.with(advance(s.parser));
            let right = parse_precedence(a, tighter, numbers);
            let done = infix_rule(a, numbers);
            &&& precedence_of(operator) != Precedence::Lowest
            &&& tighter != Precedence::Lowest
            &&& tighter.spec_rank() == precedence_of(operator).spec_rank() + 1
            &&& a.parser.previous.kind == operator
            &&& a.chunk == s.chunk
            &&& sane(a.parser)
            &&& in_source(a.parser)
            &&& stream(s.parser) == seq![operator] + stream(a.parser)
            &&& done == right.emit_binary(operator)
            &&& healthy(right.parser)
            &&& healthy(done.parser)
            &&& sane(done.parser)
            &&& in_source(done.parser)
            &&& remaining(a.parser) < remaining(s.parser)
            &&& remaining(done.parser) < remaining(s.parser)
            &&& infix_loop(s, min, numbers) == infix_loop(done, min, numbers)
        }),
{
    let a = s.with(advance(s.parser));
    let done = infix_rule(a, numbers);
    lemma_advance_consumes(s.parser);
    lemma_advance_sane(s.parser);
    lemma_advance_owed(s);
    lemma_infix_consumes(a, numbers);
    lemma_infix_shape(a, numbers);
    lemma_infix_owed(a, numbers);
    lemma_parse_consumes(a, precedence_of(s.parser.current.kind).spec_plus_one(), numbers);
    lemma_infix_loop_consumes(done, min, numbers);
    lemma_advance_stream(s.parser);
}

/// What `infix_loop` reads without an error behind the expression `left`
/// makes, with `left`, an expression that fits where it was asked for, and
/// the next token is no operator that could go on with it.
proof fn lemma_tree_behind(
    s: State,
    left: Expr,
    min: Precedence,
    numbers: Seq<u64>,
    base: Seq<u8>,
    first: nat,
)
    requires
        sane(s.parser),
        in_source(s.parser),
        min != Precedence::Lowest,
        fits(left, min.spec_rank()),
        precedence_of(s.parser.current.kind).spec_rank() <= level(left),
        s.chunk.code == base + code_of(left, first),
        s.chunk.constants.len() == first + literal_count(left),
    ensures
        healthy(infix_loop(s, min, numbers).parser) ==> {
            &&& fits(tree_behind(s, left, min, numbers), min.spec_rank())
            &&& goes_on(
                s,
                left,
                infix_loop(s, min, numbers),
                tree_behind(s, left, min, numbers),
                base,
                first,
            )
            &&& precedence_of(infix_loop(s, min, numbers).parser.current.kind).spec_rank()
                < min.spec_rank()
        },
    decreases remaining(s.parser), 1nat,
{
    if healthy(infix_loop(s, min, numbers).parser) {
        if min.spec_rank() <= precedence_of(s.parser.current.kind).spec_rank() {
            let operator = s.parser.current.kind;
            let tighter = precedence_of(operator).spec_plus_one();
            let a = s.with(advance(s.parser));
            let right = parse_precedence(a, tighter, numbers);
            let done = infix_rule(a, numbers);
            let x = tree_of(a, tighter, numbers);
            let tree = Expr::Binary(operator, Box::new(left), Box::new(x));
            lemma_operator_step(s, min, numbers);
            lemma_tree_of(a, tighter, numbers);
            lemma_binary_goes_on(s, left, a, right, x, min.spec_rank(), base, first);
            lemma_goes_on_is_in_chunk(s, left, done, tree, base, first);
            lemma_tree_behind(done, tree, min, numbers, base, first);
            assert(tree_behind(s, left, min, numbers) == tree_behind(done, tree, min, numbers));
            lemma_goes_on_further(
                s,
                left,
                done,
                tree,
                infix_loop(s, min, numbers),
                tree_behind(s, left, min, numbers),
                base,
                first,
            );
        } else {
            lemma_goes_on_nowhere(s, left, base, first);
        }
    }
}

/// A source that compiles without an error is one expression of the
/// grammar, and the code of its chunk is the code of that expression,
/// followed by `Return`: there is an expression `e`, written without
/// parentheses that it would need, such that the tokens of the source are
/// those of `e` and `EndOfFile`, the code is that of `e` and `Return`, and the
/// constants are as many as the number literals of `e`.
pub proof fn lemma_compiled_source_is_expression(source: Seq<u8>, numbers: Seq<u64>)
    ensures
        healthy(compilation(initial(source), numbers).parser) ==> exists|e: Expr|
            {
                &&& fits(e, Precedence::Assignment.spec_rank())
                &&& kinds_from(source, 0) == tokens_of(e) + seq![TokenKind::EndOfFile]
                &&& compilation(initial(source), numbers).chunk.code == code_of(e, 0) + seq![
                    OpCode::Return.spec_byte(),
                ]
                &&& compilation(initial(source), numbers).chunk.constants.len() == literal_count(
                    e,
                )
            },
{
    let s = initial(source);
    let a = s.with(advance(s.parser));
    let parsed = parse_precedence(a, Precedence::Assignment, numbers);
    let end = compilation(s, numbers);
    lemma_advance_consumes(s.parser);
    lemma_advance_sane(s.parser);
    lemma_advance_owed(s);
    lemma_parse_consumes(a, Precedence::Assignment, numbers);
    lemma_parse_shape(a, Precedence::Assignment, numbers);
    lemma_parse_owed(a, Precedence::Assignment, numbers);
    lemma_advance_consumes(parsed.parser);
    if healthy(end.parser) {
        lemma_advance_stream(s.parser);
        lemma_tree_of(a, Precedence::Assignment, numbers);
        let e = tree_of(a, Precedence::Assignment, numbers);
        lemma_compiled_is_in_chunk(a, parsed, e);
        assert(parsed.parser.current.kind == TokenKind::EndOfFile);
        assert(end.chunk.code =~= code_of(e, 0) + seq![OpCode::Return.spec_byte()]);
        assert(kinds_from(source, 0) =~= tokens_of(e) + seq![TokenKind::EndOfFile]);
    }
}

// ---------------------------------------------------------------------------
// Every expression compiles
// ---------------------------------------------------------------------------

/// The number of tokens and operations in an expression.
pub open spec fn size(e: Expr) -> nat
    decreases e,
{
    match e {
        Expr::Number | Expr::Nil | Expr::True | Expr::False => 1,
        Expr::Group(inner) => 1 + size(*inner),
        Expr::Negate(operand) => 1 + size(*operand),
        Expr::Not(operand) => 1 + size(*operand),
        Expr::Binary(_, left, right) => 1 + size(*left) + size(*right),
    }
}

/// The number of binary operations that an expression starts with: how
/// often one can go to the left operand.
spec fn depth(e: Expr) -> nat
    decreases e,
{
    match e {
        Expr::Binary(_, left, _) => 1 + depth(*left),
        _ => 0,
    }
}

/// The expression `k` steps down the left operands of `e`.
spec fn descend(e: Expr, k: nat) -> Expr
    decreases k,
{
    if k == 0 {
        e
    } else {
        match e {
            Expr::Binary(_, left, _) => descend(*left, (k - 1) as nat),
            _ => e,
        }
    }
}

/// The tokens of `e` behind those of the expression `k` steps down its left
/// operands: the operators and right operands on the way back up.
spec fn gap(e: Expr, k: nat) -> Seq<TokenKind>
    decreases k,
{
    if k == 0 {
        Seq::empty()
    } else {
        match e {
            Expr::Binary(operator, left, right) => gap(*left, (k - 1) as nat) + seq![operator]
                + tokens_of(*right),
            _ => Seq::empty(),
        }
    }
}

/// Whether no token of the sequence is an `Error`.
spec fn clean(tokens: Seq<TokenKind>) -> bool {
    forall|i: int| 0 <= i < tokens.len() ==> #[trigger] tokens[i] != TokenKind::Error
}

/// An expression that fits is written with at least one token, none of
/// which is `Error` or `EndOfFile`.
proof fn lemma_tokens_are_plain(e: Expr, min: u8)
    requires
        fits(e, min),
    ensures
        tokens_of(e).len() >= 1,
        forall|i: int|
            0 <= i < tokens_of(e).len() ==> #[trigger] tokens_of(e)[i] != TokenKind::Error
                && tokens_of(e)[i] != TokenKind::EndOfFile,
    decreases e,
{
    match e {
        Expr::Group(inner) => {
            lemma_tokens_are_plain(*inner, Precedence::Assignment.spec_rank());
        },
        Expr::Negate(operand) => {
            lemma_tokens_are_plain(*operand, Precedence::Unary.spec_rank());
        },
        Expr::Not(operand) => {
            lemma_tokens_are_plain(*operand, Precedence::Unary.spec_rank());
        },
        Expr::Binary(operator, left, right) => {
            lemma_tokens_are_plain(*left, precedence_of(operator).spec_rank());
            lemma_tokens_are_plain(*right, (precedence_of(operator).spec_rank() + 1) as u8);
        },
        _ => {},
    }
}

/// The tokens of an expression are those of the expression `k` steps down
/// its left operands, and the gap behind them.
proof fn lemma_tokens_with_gap(e: Expr, k: nat)
    requires
        k <= depth(e),
    ensures
        tokens_of(e) == tokens_of(descend(e, k)) + gap(e, k),
    decreases k,
{
    if k > 0 {
        match e {
            Expr::Binary(operator, left, right) => {
                lemma_tokens_with_gap(*left, (k - 1) as nat);
                assert(tokens_of(e) =~= tokens_of(descend(e, k)) + gap(e, k));
            },
            _ => {},
        }
    } else {
        assert(tokens_of(e) =~= tokens_of(descend(e, k)) + gap(e, k));
    }
}

/// One step up from `k` steps down the left operands stands a binary
/// operation, whose left operand is the expression `k` steps down; the gap
/// behind that expression is the operator, the right operand, and the gap
/// behind the operation.
proof fn lemma_gap_starts(e: Expr, k: nat)
    requires
        0 < k <= depth(e),
    ensures
        descend(e, (k - 1) as nat) is Binary,
        *descend(e, (k - 1) as nat)->Binary_1 == descend(e, k),
        gap(e, k) == seq![descend(e, (k - 1) as nat)->Binary_0] + tokens_of(
            *descend(e, (k - 1) as nat)->Binary_2,
        ) + gap(e, (k - 1) as nat),
        size(*descend(e, (k - 1) as nat)->Binary_2) < size(e),
        size(descend(e, k)) < size(e),
    decreases k,
{
    match e {
        Expr::Binary(operator, left, right) => {
            if k == 1 {
                assert(gap(*left, 0) =~= Seq::empty());
                assert(gap(e, 0) =~= Seq::empty());
                assert(gap(e, k) =~= seq![operator] + tokens_of(*right) + gap(e, 0));
            } else {
                lemma_gap_starts(*left, (k - 1) as nat);
                let node = descend(e, (k - 1) as nat);
                assert(node == descend(*left, (k - 2) as nat));
                assert(gap(e, k) =~= seq![node->Binary_0] + tokens_of(*node->Binary_2) + gap(
                    e,
                    (k - 1) as nat,
                ));
            }
        },
        _ => {},
    }
}

/// What fits also fits where less is asked for.
proof fn lemma_fits_lower(e: Expr, min: u8, lower: u8)
    requires
        fits(e, min),
        lower <= min,
    ensures
        fits(e, lower),
{
}

/// Down the left operands of an expression that fits, every expression
/// fits, and the operators bind tighter and tighter, or as tightly: each
/// binary operation on the way binds at least as tightly as was asked for,
/// its right operand fits one level tighter than its operator, and the
/// operation above it binds no tighter than it.
proof fn lemma_fits_down(e: Expr, min: u8, k: nat)
    requires
        fits(e, min),
        k <= depth(e),
    ensures
        fits(descend(e, k), min),
        k < depth(e) ==> descend(e, k) is Binary,
        0 < k ==> descend(e, (k - 1) as nat) is Binary && precedence_of(
            descend(e, (k - 1) as nat)->Binary_0,
        ).spec_rank() <= level(descend(e, k)),
        k == depth(e) ==> !(descend(e, k) is Binary),
    decreases k,
{
    if k > 0 {
        match e {
            Expr::Binary(operator, left, right) => {
                lemma_fits_lower(*left, precedence_of(operator).spec_rank(), min);
                lemma_fits_down(*left, min, (k - 1) as nat);
                assert(descend(e, k) == descend(*left, (k - 1) as nat));
                if k == 1 {
                    assert(descend(*left, 0) == *left);
                    assert(descend(e, 0) == e);
                    assert(fits(*left, precedence_of(operator).spec_rank()));
                    assert(precedence_of(operator).spec_rank() <= level(*left));
                } else {
                    assert(descend(e, (k - 1) as nat) == descend(*left, (k - 2) as nat));
                }
            },
            _ => {},
        }
    }
}

/// The gap behind an expression down the left operands of an expression
/// that fits holds no `Error`.
proof fn lemma_gap_is_clean(e: Expr, min: u8, k: nat)
    requires
        fits(e, min),
        k <= depth(e),
    ensures
        clean(gap(e, k)),
{
    lemma_tokens_with_gap(e, k);
    lemma_tokens_are_plain(e, min);
    let front = tokens_of(descend(e, k));
    assert forall|i: int| 0 <= i < gap(e, k).len() implies #[trigger] gap(e, k)[i]
        != TokenKind::Error by {
        assert(tokens_of(e)[front.len() + i] == gap(e, k)[i]);
    }
}

/// Whether a compilation stands well: inside the source, and without an
/// error so far.
spec fn well(p: CompilerView) -> bool {
    in_source(p) && sane(p) && !p.had_error
}

/// Where the next token of the source is no `Error`, advancing reports
/// nothing and comes to that token.
proof fn lemma_clean_advance(p: CompilerView)
    requires
        well(p),
        p.current.kind != TokenKind::EndOfFile,
        kinds_from(p.source, p.position)[0] != TokenKind::Error,
    ensures
        well(advance(p)),
        stream(advance(p)) == kinds_from(p.source, p.position),
        stream(p) == seq![p.current.kind] + stream(advance(p)),
        advance(p).previous == p.current,
{
    let q = CompilerView { previous: p.current, ..p };
    let start = after_blanks(q.source, q.position, false);
    lemma_after_blanks_bounds(q.source, q.position, false);
    lemma_token_bounds(q.source, start);
    assert(token_at(q.source, start).kind == kinds_from(q.source, q.position)[0]);
    lemma_next_token_owed(q);
    lemma_next_token_stream(q);
}

/// At the end of the source, advancing reports nothing.
proof fn lemma_advance_at_end(p: CompilerView)
    requires
        well(p),
        p.current.kind == TokenKind::EndOfFile,
    ensures
        !advance(p).had_error,
{
    let q = CompilerView { previous: p.current, ..p };
    let start = after_blanks(q.source, q.position, false);
    lemma_after_blanks_bounds(q.source, q.position, false);
    lemma_token_bounds(q.source, start);
}

/// The first token that is still to be read is the current token.
proof fn lemma_stream_starts(p: CompilerView, front: Seq<TokenKind>, rest: Seq<TokenKind>)
    requires
        stream(p) == front + rest,
        front.len() >= 1,
        rest.len() >= 1,
        forall|i: int| 0 <= i < front.len() ==> #[trigger] front[i] != TokenKind::EndOfFile,
    ensures
        p.current.kind == front[0],
        p.current.kind != TokenKind::EndOfFile,
        kinds_from(p.source, p.position) == front.subrange(1, front.len() as int) + rest,
{
    assert(stream(p)[0] == front[0]);
    if p.current.kind == TokenKind::EndOfFile {
        assert(stream(p).len() == 1);
        assert((front + rest).len() == front.len() + rest.len());
    }
    assert((seq![p.current.kind] + kinds_from(p.source, p.position)).subrange(
        1,
        stream(p).len() as int,
    ) =~= kinds_from(p.source, p.position));
    assert((front + rest).subrange(1, (front + rest).len() as int) =~= front.subrange(
        1,
        front.len() as int,
    ) + rest);
}

/// An expression that fits compiles: where the tokens that are still to
/// be read are those of the expression `e`, which fits where it is asked
/// for, and then a token that cannot go on with it, `parse_precedence`
/// reads `e`, reports nothing, and stands before that token.
proof fn lemma_parses(s: State, e: Expr, min: Precedence, rest: Seq<TokenKind>, numbers: Seq<u64>)
    requires
        well(s.parser),
        min != Precedence::Lowest,
        fits(e, min.spec_rank()),
        stream(s.parser) == tokens_of(e) + rest,
        rest.len() >= 1,
        precedence_of(rest[0]).spec_rank() < min.spec_rank(),
        clean(rest),
    ensures
        well(parse_precedence(s, min, numbers).parser),
        stream(parse_precedence(s, min, numbers).parser) == rest,
        tree_of(s, min, numbers) == e,
    decreases size(e), 2nat, 0nat,
{
    let k = depth(e);
    let first = descend(e, k);
    let a = s.with(advance(s.parser));
    let operand = prefix_rule(a, numbers);
    lemma_tokens_are_plain(e, min.spec_rank());
    lemma_tokens_with_gap(e, k);
    lemma_fits_down(e, min.spec_rank(), k);
    lemma_tokens_are_plain(first, min.spec_rank());
    lemma_gap_is_clean(e, min.spec_rank(), k);
    lemma_stream_starts(s.parser, tokens_of(e), rest);
    lemma_clean_advance(s.parser);
    lemma_advance_consumes(s.parser);
    assert(seq![a.parser.previous.kind] + stream(a.parser) =~= tokens_of(first) + (gap(e, k)
        + rest));
    if k > 0 {
        lemma_gap_starts(e, k);
    }
    lemma_reads_operand(a, first, gap(e, k) + rest, numbers);
    lemma_prefix_consumes(a, numbers);
    lemma_goes_on_reading(operand, e, k, min, rest, numbers);
}

/// An operand compiles: where its first token has been read, and the
/// tokens that are still to be read are the rest of it, `prefix_rule` reads
/// it, reports nothing, and stands behind it.
proof fn lemma_reads_operand(a: State, first: Expr, rest: Seq<TokenKind>, numbers: Seq<u64>)
    requires
        well(a.parser),
        !(first is Binary),
        fits(first, 0),
        seq![a.parser.previous.kind] + stream(a.parser) == tokens_of(first) + rest,
        rest.len() >= 1,
        clean(rest),
    ensures
        well(prefix_rule(a, numbers).parser),
        stream(prefix_rule(a, numbers).parser) == rest,
        operand_tree(a, numbers) == first,
    decreases size(first), 0nat, 0nat,
{
    let front = tokens_of(first);
    let tail = front.subrange(1, front.len() as int);
    lemma_tokens_are_plain(first, 0);
    lemma_behind_first(a.parser.previous.kind, stream(a.parser), front, rest);
    match first {
        Expr::Group(inner) => {
            let closing = seq![TokenKind::RightParen] + rest;
            assert(tail + rest =~= tokens_of(*inner) + closing);
            lemma_parses(a, *inner, Precedence::Assignment, closing, numbers);
            let parsed = parse_precedence(a, Precedence::Assignment, numbers);
            lemma_stream_starts(parsed.parser, seq![TokenKind::RightParen], rest);
            assert(seq![TokenKind::RightParen].subrange(1, 1) + rest =~= rest);
            lemma_clean_advance(parsed.parser);
        },
        Expr::Negate(operand) => {
            assert(tail + rest =~= tokens_of(*operand) + rest);
            lemma_parses(a, *operand, Precedence::Unary, rest, numbers);
        },
        Expr::Not(operand) => {
            assert(tail + rest =~= tokens_of(*operand) + rest);
            lemma_parses(a, *operand, Precedence::Unary, rest, numbers);
        },
        _ => {
            assert(tail + rest =~= rest);
        },
    }
}

/// What stands behind the first of some tokens.
proof fn lemma_behind_first(
    x: TokenKind,
    behind: Seq<TokenKind>,
    front: Seq<TokenKind>,
    rest: Seq<TokenKind>,
)
    requires
        seq![x] + behind == front + rest,
        front.len() >= 1,
    ensures
        x == front[0],
        behind == front.subrange(1, front.len() as int) + rest,
{
    assert((seq![x] + behind)[0] == x);
    assert((front + rest)[0] == front[0]);
    assert(behind =~= (seq![x] + behind).subrange(1, 1 + behind.len() as int));
    assert((front + rest).subrange(1, (front + rest).len() as int) =~= front.subrange(
        1,
        front.len() as int,
    ) + rest);
}

/// The rest of an expression compiles: where the expression `k` steps down
/// the left operands of `e` has been read, and the tokens that are still to
/// be read are the gap behind it and then a token that cannot go on,
/// `infix_loop` reads the gap, reports nothing, and stands before that
/// token.
proof fn lemma_goes_on_reading(
    s: State,
    e: Expr,
    k: nat,
    min: Precedence,
    rest: Seq<TokenKind>,
    numbers: Seq<u64>,
)
    requires
        well(s.parser),
        min != Precedence::Lowest,
        fits(e, min.spec_rank()),
        k <= depth(e),
        stream(s.parser) == gap(e, k) + rest,
        rest.len() >= 1,
        precedence_of(rest[0]).spec_rank() < min.spec_rank(),
        clean(rest),
    ensures
        well(infix_loop(s, min, numbers).parser),
        stream(infix_loop(s, min, numbers).parser) == rest,
        tree_behind(s, descend(e, k), min, numbers) == e,
    decreases size(e), 1nat, k,
{
    if k == 0 {
        assert(gap(e, 0) + rest =~= rest);
        assert(stream(s.parser)[0] == rest[0]);
    } else {
        let node = descend(e, (k - 1) as nat);
        let operator = node->Binary_0;
        let right = *node->Binary_2;
        let behind = gap(e, (k - 1) as nat) + rest;
        let tighter = precedence_of(operator).spec_plus_one();
        let a = s.with(advance(s.parser));
        lemma_gap_starts(e, k);
        lemma_fits_down(e, min.spec_rank(), (k - 1) as nat);
        lemma_gap_is_clean(e, min.spec_rank(), (k - 1) as nat);
        lemma_tokens_are_plain(right, (precedence_of(operator).spec_rank() + 1) as u8);
        assert(stream(s.parser) =~= seq![operator] + (tokens_of(right) + behind));
        lemma_stream_starts(s.parser, seq![operator], tokens_of(right) + behind);
        assert(seq![operator].subrange(1, 1) + (tokens_of(right) + behind) =~= tokens_of(right)
            + behind);
        lemma_clean_advance(s.parser);
        lemma_advance_consumes(s.parser);
        if k > 1 {
            lemma_gap_starts(e, (k - 1) as nat);
            lemma_fits_down(e, min.spec_rank(), (k - 2) as nat);
        } else {
            assert(gap(e, 0) + rest =~= rest);
        }
        lemma_parses(a, right, tighter, behind, numbers);
        lemma_parse_consumes(a, tighter, numbers);
        let done = infix_rule(a, numbers);
        lemma_emit_binary_code(parse_precedence(a, tighter, numbers), operator);
        lemma_goes_on_reading(done, e, (k - 1) as nat, min, rest, numbers);
    }
}

/// Every expression compiles, to its code: where the tokens of a source are
/// those of an expression `e` that is written without parentheses that it
/// would need, and then `EndOfFile`, and a value is given for each number
/// literal of the source, of which there are 256 at most, the compilation
/// reports no error and does not fail, the code of its chunk is the code of
/// `e`, followed by `Return`, and its constants are as many as the number
/// literals of `e`.
pub proof fn lemma_expression_compiles(source: Seq<u8>, numbers: Seq<u64>, e: Expr)
    requires
        fits(e, Precedence::Assignment.spec_rank()),
        kinds_from(source, 0) == tokens_of(e) + seq![TokenKind::EndOfFile],
        number_lexemes(source, 0).len() <= numbers.len(),
        number_lexemes(source, 0).len() <= 256,
    ensures
        healthy(compilation(initial(source), numbers).parser),
        compilation(initial(source), numbers).chunk.code == code_of(e, 0) + seq![
            OpCode::Return.spec_byte(),
        ],
        compilation(initial(source), numbers).chunk.constants.len() == literal_count(e),
{
    let s = initial(source);
    let a = s.with(advance(s.parser));
    let parsed = parse_precedence(a, Precedence::Assignment, numbers);
    let end = compilation(s, numbers);
    let last = seq![TokenKind::EndOfFile];
    lemma_tokens_are_plain(e, Precedence::Assignment.spec_rank());
    assert(kinds_from(source, 0)[0] == tokens_of(e)[0]);
    lemma_clean_advance(s.parser);
    lemma_parses(a, e, Precedence::Assignment, last, numbers);
    assert(stream(parsed.parser)[0] == TokenKind::EndOfFile);
    lemma_advance_at_end(parsed.parser);
    lemma_enough_numbers(source, numbers);
    lemma_tree_of(a, Precedence::Assignment, numbers);
    lemma_parse_consumes(a, Precedence::Assignment, numbers);
    lemma_advance_consumes(parsed.parser);
    lemma_compiled_is_in_chunk(a, parsed, e);
    assert(end.chunk.code =~= code_of(e, 0) + seq![OpCode::Return.spec_byte()]);
}

} // verus!
