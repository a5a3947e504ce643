//! The scanner: source text to tokens, one at a time.
//!
//! The source is read as bytes, and each byte is taken as a character of its
//! own: only ASCII can be part of a token other than a string literal.
use vstd::prelude::*;
use vstd::utf8::*;
use vstd::string::{StringSliceAdditionalSpecFns, StrSliceExecFns};

verus! {

/// The kinds of tokens.
#[derive(Debug, PartialEq, Eq, Clone, Copy, Structural)]
pub enum TokenKind {
    // single character tokens
    LeftParen,
    RightParen,
    LeftBrace,
    RightBrace,
    Comma,
    Dot,
    Minus,
    Plus,
    Semicolon,
    Slash,
    Star,
    // one or two character tokens
    Bang,
    BangEqual,
    Equal,
    EqualEqual,
    Greater,
    GreaterEqual,
    Less,
    LessEqual,
    // literals
    Identifier,
    String,
    Number,
    // keywords
    And,
    Class,
    Else,
    False,
    For,
    Fun,
    If,
    Nil,
    Or,
    Print,
    Return,
    Super,
    This,
    True,
    Var,
    While,
    Error,
    EndOfFile,
}

/// What a token is: its kind, its text, and the 1-based line of the source
/// on which it begins.
pub struct TokenView {
    pub kind: TokenKind,
    pub lexeme: Seq<char>,
    pub line: nat,
}

/// A token. The lexeme of an `Error` token is the error's message; that of
/// any other token is the text that the token spans.
#[derive(Debug)]
pub struct Token {
    pub kind: TokenKind,
    pub lexeme: String,
    pub line: usize,
}

impl View for Token {
    type V = TokenView;

    open spec fn view(&self) -> TokenView {
        TokenView { kind: self.kind, lexeme: self.lexeme@, line: self.line as nat }
    }
}

impl Clone for Token {
    fn clone(&self) -> (r: Self)
        ensures
            r == *self,
    {
        Token { kind: self.kind, lexeme: self.lexeme.clone(), line: self.line }
    }
}

// ---------------------------------------------------------------------------
// What scanning means
// ---------------------------------------------------------------------------

/// The byte at `pos` as a character, or NUL outside the source.
pub open spec fn char_at(src: Seq<u8>, pos: int) -> char {
    if 0 <= pos < src.len() {
        src[pos] as char
    } else {
        '\0'
    }
}

/// An ASCII digit.
pub open spec fn is_digit(c: char) -> bool {
    '0' <= c <= '9'
}

/// An ASCII letter or the underscore: what an identifier starts with.
pub open spec fn is_letter(c: char) -> bool {
    ('a' <= c <= 'z') || ('A' <= c <= 'Z') || c == '_'
}

/// The number of line terminators among the first `pos` bytes.
pub open spec fn newlines_before(src: Seq<u8>, pos: int) -> nat
    decreases pos,
{
    if pos <= 0 {
        0
    } else if char_at(src, pos - 1) == '\n' {
        newlines_before(src, pos - 1) + 1
    } else {
        newlines_before(src, pos - 1)
    }
}

/// The 1-based number of the line that the byte at `pos` is on.
pub open spec fn line_at(src: Seq<u8>, pos: int) -> nat {
    newlines_before(src, pos) + 1
}

/// Whether a comment starts at `pos`.
pub open spec fn comment_starts(src: Seq<u8>, pos: int) -> bool {
    char_at(src, pos) == '/' && char_at(src, pos + 1) == '/'
}

/// Whether the byte at `pos` is whitespace or a line terminator.
pub open spec fn is_space_at(src: Seq<u8>, pos: int) -> bool {
    let c = char_at(src, pos);
    0 <= pos < src.len() && (c == ' ' || c == '\r' || c == '\t' || c == '\n')
}

/// Where the next token starts, seen from `pos`: the first position that
/// is neither whitespace nor inside a comment. A comment runs from `//` to
/// the end of its line; `in_comment` says that `pos` is inside one.
pub open spec fn after_blanks(src: Seq<u8>, pos: int, in_comment: bool) -> int
    decreases src.len() - pos, (if in_comment { 1int } else { 0int }),
{
    let c = char_at(src, pos);
    if pos < 0 || pos >= src.len() {
        pos
    } else if in_comment {
        if c == '\n' {
            after_blanks(src, pos, false)
        } else {
            after_blanks(src, pos + 1, true)
        }
    } else if is_space_at(src, pos) {
        after_blanks(src, pos + 1, false)
    } else if comment_starts(src, pos) {
        after_blanks(src, pos + 2, true)
    } else {
        pos
    }
}

/// The end of the run of letters, digits and underscores that `pos` is in.
pub open spec fn word_end(src: Seq<u8>, pos: int) -> int
    decreases src.len() - pos,
{
    if 0 <= pos < src.len() && (is_letter(char_at(src, pos)) || is_digit(char_at(src, pos))) {
        word_end(src, pos + 1)
    } else {
        pos
    }
}

/// The end of the run of digits that `pos` is in.
pub open spec fn digits_end(src: Seq<u8>, pos: int) -> int
    decreases src.len() - pos,
{
    if 0 <= pos < src.len() && is_digit(char_at(src, pos)) {
        digits_end(src, pos + 1)
    } else {
        pos
    }
}

/// The end of a number literal whose first digit is before `pos`: the
/// digits that follow, and a fractional part if a dot and at least one digit
/// come next.
pub open spec fn number_end(src: Seq<u8>, pos: int) -> int {
    let whole = digits_end(src, pos);
    if char_at(src, whole) == '.' && is_digit(char_at(src, whole + 1)) {
        digits_end(src, whole + 1)
    } else {
        whole
    }
}

/// The position of the first double quote at or after `pos`, or the end of
/// the source where there is none.
pub open spec fn quote_at(src: Seq<u8>, pos: int) -> int
    decreases src.len() - pos,
{
    if 0 <= pos < src.len() && char_at(src, pos) != '"' {
        quote_at(src, pos + 1)
    } else {
        pos
    }
}

/// Whether the bytes from `start` to `end` spell `word`.
pub open spec fn spells(src: Seq<u8>, start: int, end: int, word: Seq<char>) -> bool {
    end - start == word.len() && forall|i: int|
        0 <= i < word.len() ==> char_at(src, start + i) == #[trigger] word[i]
}

/// The kind of the word from `start` to `end`: that of the keyword it spells,
/// or `Identifier`.
pub open spec fn word_kind(src: Seq<u8>, start: int, end: int) -> TokenKind {
    if spells(src, start, end, "and"@) {
        TokenKind::And
    } else if spells(src, start, end, "class"@) {
        TokenKind::Class
    } else if spells(src, start, end, "else"@) {
        TokenKind::Else
    } else if spells(src, start, end, "false"@) {
        TokenKind::False
    } else if spells(src, start, end, "for"@) {
        TokenKind::For
    } else if spells(src, start, end, "fun"@) {
        TokenKind::Fun
    } else if spells(src, start, end, "if"@) {
        TokenKind::If
    } else if spells(src, start, end, "nil"@) {
        TokenKind::Nil
    } else if spells(src, start, end, "or"@) {
        TokenKind::Or
    } else if spells(src, start, end, "print"@) {
        TokenKind::Print
    } else if spells(src, start, end, "return"@) {
        TokenKind::Return
    } else if spells(src, start, end, "super"@) {
        TokenKind::Super
    } else if spells(src, start, end, "this"@) {
        TokenKind::This
    } else if spells(src, start, end, "true"@) {
        TokenKind::True
    } else if spells(src, start, end, "var"@) {
        TokenKind::Var
    } else if spells(src, start, end, "while"@) {
        TokenKind::While
    } else {
        TokenKind::Identifier
    }
}

/// The kind of a token of one character that is never the start of a longer
/// one.
pub open spec fn punctuation(c: char) -> Option<TokenKind> {
    if c == '(' {
        Some(TokenKind::LeftParen)
    } else if c == ')' {
        Some(TokenKind::RightParen)
    } else if c == '{' {
        Some(TokenKind::LeftBrace)
    } else if c == '}' {
        Some(TokenKind::RightBrace)
    } else if c == ';' {
        Some(TokenKind::Semicolon)
    } else if c == ',' {
        Some(TokenKind::Comma)
    } else if c == '.' {
        Some(TokenKind::Dot)
    } else if c == '-' {
        Some(TokenKind::Minus)
    } else if c == '+' {
        Some(TokenKind::Plus)
    } else if c == '/' {
        Some(TokenKind::Slash)
    } else if c == '*' {
        Some(TokenKind::Star)
    } else {
        None
    }
}

/// The kind of the token that starts at `start`, where no blank does.
#[verifier::opaque]
pub open spec fn kind_at(src: Seq<u8>, start: int) -> TokenKind {
    let c = char_at(src, start);
    let followed_by_equal = char_at(src, start + 1) == '=';
    if start < 0 || start >= src.len() {
        TokenKind::EndOfFile
    } else if is_letter(c) {
        word_kind(src, start, word_end(src, start + 1))
    } else if is_digit(c) {
        TokenKind::Number
    } else if c == '!' {
        if followed_by_equal {
            TokenKind::BangEqual
        } else {
            TokenKind::Bang
        }
    } else if c == '=' {
        if followed_by_equal {
            TokenKind::EqualEqual
        } else {
            TokenKind::Equal
        }
    } else if c == '<' {
        if followed_by_equal {
            TokenKind::LessEqual
        } else {
            TokenKind::Less
        }
    } else if c == '>' {
        if followed_by_equal {
            TokenKind::GreaterEqual
        } else {
            TokenKind::Greater
        }
    } else if c == '"' {
        if quote_at(src, start + 1) >= src.len() {
            TokenKind::Error
        } else {
            TokenKind::String
        }
    } else {
        match punctuation(c) {
            Some(kind) => kind,
            None => TokenKind::Error,
        }
    }
}

/// Where the token that starts at `start` ends. An unterminated string runs
/// to the end of the source; a character that starts no token is passed over
/// alone.
#[verifier::opaque]
pub open spec fn end_at(src: Seq<u8>, start: int) -> int {
    let c = char_at(src, start);
    let followed_by_equal = char_at(src, start + 1) == '=';
    if start < 0 || start >= src.len() {
        start
    } else if is_letter(c) {
        word_end(src, start + 1)
    } else if is_digit(c) {
        number_end(src, start + 1)
    } else if (c == '!' || c == '=' || c == '<' || c == '>') && followed_by_equal {
        start + 2
    } else if c == '"' {
        if quote_at(src, start + 1) >= src.len() {
            quote_at(src, start + 1)
        } else {
            quote_at(src, start + 1) + 1
        }
    } else {
        start + 1
    }
}

/// The text of the token that starts at `start`: the message of an error,
/// else the source from the token's start to its end.
#[verifier::opaque]
pub open spec fn lexeme_at(src: Seq<u8>, start: int) -> Seq<char> {
    if kind_at(src, start) == TokenKind::Error {
        if char_at(src, start) == '"' {
            "Unterminated string."@
        } else {
            "Unexpected character."@
        }
    } else {
        decode_utf8(src.subrange(start, end_at(src, start)))
    }
}

/// The token that starts at `start`.
pub open spec fn token_at(src: Seq<u8>, start: int) -> TokenView {
    TokenView {
        kind: kind_at(src, start),
        lexeme: lexeme_at(src, start),
        line: line_at(src, start),
    }
}

// ---------------------------------------------------------------------------
// What holds of every source
// ---------------------------------------------------------------------------

/// Skipping blanks moves forward only, and never beyond the end.
pub proof fn lemma_after_blanks_bounds(src: Seq<u8>, pos: int, in_comment: bool)
    requires
        0 <= pos <= src.len(),
    ensures
        pos <= after_blanks(src, pos, in_comment) <= src.len(),
    decreases src.len() - pos, (if in_comment { 1int } else { 0int }),
{
    if pos < src.len() {
        if in_comment {
            if char_at(src, pos) == '\n' {
                lemma_after_blanks_bounds(src, pos, false);
            } else {
                lemma_after_blanks_bounds(src, pos + 1, true);
            }
        } else if is_space_at(src, pos) {
            lemma_after_blanks_bounds(src, pos + 1, false);
        } else if comment_starts(src, pos) {
            lemma_after_blanks_bounds(src, pos + 2, true);
        }
    }
}

/// Where skipping blanks stops there is no blank: neither whitespace nor
/// the start of a comment, so that skipping again stays there.
pub proof fn lemma_after_blanks_stops(src: Seq<u8>, pos: int, in_comment: bool)
    requires
        0 <= pos <= src.len(),
    ensures
        !is_space_at(src, after_blanks(src, pos, in_comment)),
        !comment_starts(src, after_blanks(src, pos, in_comment)),
        after_blanks(src, after_blanks(src, pos, in_comment), false) == after_blanks(
            src,
            pos,
            in_comment,
        ),
    decreases src.len() - pos, (if in_comment { 1int } else { 0int }),
{
    if pos < src.len() {
        if in_comment {
            if char_at(src, pos) == '\n' {
                lemma_after_blanks_stops(src, pos, false);
            } else {
                lemma_after_blanks_stops(src, pos + 1, true);
            }
        } else if is_space_at(src, pos) {
            lemma_after_blanks_stops(src, pos + 1, false);
        } else if comment_starts(src, pos) {
            lemma_after_blanks_stops(src, pos + 2, true);
        }
    }
}

proof fn lemma_word_end_bounds(src: Seq<u8>, pos: int)
    requires
        0 <= pos <= src.len(),
    ensures
        pos <= word_end(src, pos) <= src.len(),
    decreases src.len() - pos,
{
    if pos < src.len() && (is_letter(char_at(src, pos)) || is_digit(char_at(src, pos))) {
        lemma_word_end_bounds(src, pos + 1);
    }
}

proof fn lemma_digits_end_bounds(src: Seq<u8>, pos: int)
    requires
        0 <= pos <= src.len(),
    ensures
        pos <= digits_end(src, pos) <= src.len(),
    decreases src.len() - pos,
{
    if pos < src.len() && is_digit(char_at(src, pos)) {
        lemma_digits_end_bounds(src, pos + 1);
    }
}

proof fn lemma_quote_at_bounds(src: Seq<u8>, pos: int)
    requires
        0 <= pos <= src.len(),
    ensures
        pos <= quote_at(src, pos) <= src.len(),
    decreases src.len() - pos,
{
    if pos < src.len() && char_at(src, pos) != '"' {
        lemma_quote_at_bounds(src, pos + 1);
    }
}

/// Every token but `EndOfFile` spans at least one byte and ends inside the
/// source; `EndOfFile` is the token at the end of the source, and nowhere
/// inside it.
pub proof fn lemma_token_bounds(src: Seq<u8>, start: int)
    ensures
        kind_at(src, start) == TokenKind::EndOfFile <==> !(0 <= start < src.len()),
        0 <= start < src.len() ==> start < end_at(src, start) <= src.len(),
        !(0 <= start < src.len()) ==> end_at(src, start) == start,
{
    reveal(kind_at);
    reveal(end_at);
    if 0 <= start < src.len() {
        lemma_word_end_bounds(src, start + 1);
        lemma_digits_end_bounds(src, start + 1);
        let whole = digits_end(src, start + 1);
        if whole + 1 <= src.len() {
            lemma_digits_end_bounds(src, whole + 1);
        }
        lemma_quote_at_bounds(src, start + 1);
        lemma_keywords_by_first_letters(src, start, word_end(src, start + 1));
    }
}

/// Where a token stands: its kind, and the bytes that it spans.
pub struct Span {
    pub kind: TokenKind,
    pub start: int,
    pub end: int,
}

/// The tokens that a scanner at `pos` gives one after the other, up to the
/// first `EndOfFile`.
pub open spec fn tokens_from(src: Seq<u8>, pos: int) -> Seq<Span>
    decreases src.len() - pos,
{
    let start = after_blanks(src, pos, false);
    let end = end_at(src, start);
    let first = Span { kind: kind_at(src, start), start, end };
    if pos < 0 || start >= src.len() || end <= pos {
        seq![first]
    } else {
        proof {
            if pos <= src.len() {
                lemma_after_blanks_bounds(src, pos, false);
                lemma_token_bounds(src, start);
            }
        }
        seq![first] + tokens_from(src, end)
    }
}

/// Whether `span` is the token that starts at `span.start`, inside the
/// source and not before `pos`.
#[verifier::opaque]
pub open spec fn is_token(src: Seq<u8>, pos: int, span: Span) -> bool {
    &&& pos <= span.start <= span.end <= src.len()
    &&& span.kind == kind_at(src, span.start)
    &&& span.end == end_at(src, span.start)
    &&& (span.kind == TokenKind::EndOfFile <==> span.start == src.len())
    &&& (span.kind != TokenKind::Error ==> lexeme_at(src, span.start) == decode_utf8(
        src.subrange(span.start, span.end),
    ))
}

/// What a scanner gives at `pos` is a token, not before `pos`.
proof fn lemma_first_is_token(src: Seq<u8>, pos: int)
    requires
        0 <= pos <= src.len(),
    ensures
        is_token(
            src,
            pos,
            Span {
                kind: kind_at(src, after_blanks(src, pos, false)),
                start: after_blanks(src, pos, false),
                end: end_at(src, after_blanks(src, pos, false)),
            },
        ),
        pos <= after_blanks(src, pos, false) <= end_at(src, after_blanks(src, pos, false))
            <= src.len(),
        after_blanks(src, pos, false) < src.len() ==> pos < end_at(
            src,
            after_blanks(src, pos, false),
        ),
{
    reveal(is_token);
    reveal(lexeme_at);
    lemma_after_blanks_bounds(src, pos, false);
    lemma_token_bounds(src, after_blanks(src, pos, false));
}

/// A token that stands not before a position stands not before an earlier
/// one.
proof fn lemma_is_token_from(src: Seq<u8>, earlier: int, pos: int, span: Span)
    requires
        earlier <= pos,
        is_token(src, pos, span),
    ensures
        is_token(src, earlier, span),
{
    reveal(is_token);
}

/// The tokens of a source end with one `EndOfFile`, which stands at the end
/// of the source, and no other token is one. Each token spans bytes of the
/// source, where it is no `Error` its text is these bytes, and between the
/// end of one token and the start of the next there are only blanks: the
/// spans of the tokens, with the whitespace and the comments that were
/// skipped, make up the source from `pos` on.
pub proof fn lemma_tokens_cover_source(src: Seq<u8>, pos: int)
    requires
        0 <= pos <= src.len(),
    ensures
        ({
            let tokens = tokens_from(src, pos);
            &&& tokens.len() >= 1
            &&& tokens[0].start == after_blanks(src, pos, false)
            &&& tokens.last().start == src.len()
            &&& forall|i: int| 0 <= i < tokens.len() ==> is_token(src, pos, #[trigger] tokens[i])
            &&& forall|i: int|
                0 <= i < tokens.len() - 1 ==> (#[trigger] tokens[i]).start < src.len()
            &&& forall|i: int|
                0 <= i < tokens.len() - 1 ==> (#[trigger] tokens[i + 1]).start == after_blanks(
                    src,
                    tokens[i].end,
                    false,
                )
        }),
    decreases src.len() - pos,
{
    let start = after_blanks(src, pos, false);
    let end = end_at(src, start);
    let first = Span { kind: kind_at(src, start), start, end };
    lemma_first_is_token(src, pos);
    let tokens = tokens_from(src, pos);
    if start < src.len() {
        lemma_tokens_cover_source(src, end);
        let rest = tokens_from(src, end);
        assert(tokens =~= seq![first] + rest);
        assert forall|i: int| 0 <= i < tokens.len() implies is_token(
            src,
            pos,
            #[trigger] tokens[i],
        ) by {
            if i > 0 {
                assert(tokens[i] == rest[i - 1]);
                lemma_is_token_from(src, pos, end, rest[i - 1]);
            }
        }
        assert forall|i: int| 0 <= i < tokens.len() - 1 implies (#[trigger] tokens[i]).start
            < src.len() by {
            if i > 0 {
                assert(tokens[i] == rest[i - 1]);
            }
        }
        assert forall|i: int| 0 <= i < tokens.len() - 1 implies (#[trigger] tokens[i + 1]).start
            == after_blanks(src, tokens[i].end, false) by {
            if i > 0 {
                assert(tokens[i] == rest[i - 1]);
                assert(tokens[i + 1] == rest[i - 1 + 1]);
            } else {
                assert(tokens[1] == rest[0]);
            }
        }
    } else {
        assert(tokens =~= seq![first]);
    }
}

// ---------------------------------------------------------------------------
// The scanner
// ---------------------------------------------------------------------------

/// What a scanner holds: the bytes of its source, the start of the token
/// being scanned, the position of the next byte to read, and the line that
/// this byte is on.
pub struct ScannerView {
    pub source: Seq<u8>,
    pub start: nat,
    pub current: nat,
    pub line: nat,
}

/// The scanner of one source text. It moves forward only.
pub struct Scanner {
    source: String,
    start: usize,
    current: usize,
    line: usize,
}

impl View for Scanner {
    type V = ScannerView;

    closed spec fn view(&self) -> ScannerView {
        ScannerView {
            source: encode_utf8(self.source@),
            start: self.start as nat,
            current: self.current as nat,
            line: self.line as nat,
        }
    }
}

/// The bytes of a source text.
pub open spec fn source_bytes(source: Seq<char>) -> Seq<u8> {
    encode_utf8(source)
}

proof fn lemma_newlines_bounded(src: Seq<u8>, pos: int)
    requires
        0 <= pos,
    ensures
        newlines_before(src, pos) <= pos,
    decreases pos,
{
    if pos > 0 {
        lemma_newlines_bounded(src, pos - 1);
    }
}

/// The line changes only behind a line terminator.
proof fn lemma_line_stays(src: Seq<u8>, pos: int)
    requires
        0 <= pos,
    ensures
        char_at(src, pos) != '\n' ==> line_at(src, pos + 1) == line_at(src, pos),
{
}

/// In valid UTF-8 a character starts at every ASCII byte, and another one
/// right after it.
proof fn lemma_ascii_is_boundary(src: Seq<u8>, i: int)
    requires
        valid_utf8(src),
        0 <= i < src.len(),
        src[i] < 0x80,
    ensures
        is_char_boundary(src, i),
        is_char_boundary(src, i + 1),
{
    is_char_boundary_iff_not_is_continuation_byte(src, i);
    if i + 1 == src.len() {
        is_char_boundary_start_end_of_seq(src);
    } else {
        let tail = src.subrange(i, src.len() as int);
        valid_utf8_split(src, i);
        assert(tail[0] == src[i]);
        assert(valid_first_scalar(tail));
        assert(length_of_first_scalar(tail) == 1);
        let rest = pop_first_scalar(tail);
        assert(valid_utf8(rest));
        assert(rest.len() > 0);
        assert(rest[0] == src[i + 1]);
        assert(valid_first_scalar(rest));
        assert(!is_continuation_byte(src[i + 1]));
        is_char_boundary_iff_not_is_continuation_byte(src, i + 1);
    }
}

fn is_letter_char(c: char) -> (r: bool)
    ensures
        r == is_letter(c),
{
    (c >= 'a' && c <= 'z') || (c >= 'A' && c <= 'Z') || c == '_'
}

fn is_word_char(c: char) -> (r: bool)
    ensures
        r == (is_letter(c) || is_digit(c)),
{
    is_letter_char(c) || is_digit_char(c)
}

fn is_digit_char(c: char) -> (r: bool)
    ensures
        r == is_digit(c),
{
    c >= '0' && c <= '9'
}

impl Scanner {
    /// The positions are in order and inside the source.
    pub open spec fn in_bounds(&self) -> bool {
        self@.start <= self@.current <= self@.source.len() < usize::MAX
    }

    /// The positions are in bounds and the line is that of the next byte.
    pub open spec fn wf(&self) -> bool {
        self.in_bounds() && self@.line == line_at(self@.source, self@.current as int)
    }

    /// A scanner at the start of `source`, on line 1. The source is shorter
    /// than `usize::MAX` bytes, so that its lines can be counted.
    pub fn new(source: String) -> (r: Self)
        requires
            source_bytes(source@).len() < usize::MAX,
        ensures
            r.wf(),
            r@ == (ScannerView { source: source_bytes(source@), start: 0, current: 0, line: 1 }),
    {
        Self { source, start: 0, current: 0, line: 1 }
    }

    /// Skips blanks and comments, then scans one token: the one that starts
    /// where the blanks end. At the end of the source every call returns an
    /// `EndOfFile` token. An `Error` token does not stop the scanner: the next
    /// call goes on behind it.
    pub fn scan_token(&mut self) -> (token: Token)
        requires
            old(self).wf(),
        ensures
            final(self).wf(),
            final(self)@.source == old(self)@.source,
            final(self)@.start == after_blanks(old(self)@.source, old(self)@.current as int, false),
            final(self)@.current == end_at(old(self)@.source, final(self)@.start as int),
            token@ == token_at(old(self)@.source, final(self)@.start as int),
    {
        proof {
            reveal(kind_at);
            reveal(end_at);
            reveal(lexeme_at);
        }
        self.skip_whitespace();

        self.start = self.current;
        let line = self.line;

        if self.is_at_end() {
            return self.make_token(TokenKind::EndOfFile, line);
        }
        let c = self.advance();
        proof {
            lemma_line_stays(self@.source, self@.start as int);
            lemma_line_stays(self@.source, self@.start as int + 1);
        }

        if is_letter_char(c) {
            return self.identifier(line);
        }
        if is_digit_char(c) {
            return self.number(line);
        }
        match c {
            '(' => self.make_token(TokenKind::LeftParen, line),
            ')' => self.make_token(TokenKind::RightParen, line),
            '{' => self.make_token(TokenKind::LeftBrace, line),
            '}' => self.make_token(TokenKind::RightBrace, line),
            ';' => self.make_token(TokenKind::Semicolon, line),
            ',' => self.make_token(TokenKind::Comma, line),
            '.' => self.make_token(TokenKind::Dot, line),
            '-' => self.make_token(TokenKind::Minus, line),
            '+' => self.make_token(TokenKind::Plus, line),
            '/' => self.make_token(TokenKind::Slash, line),
            '*' => self.make_token(TokenKind::Star, line),
            '!' => {
                let kind = if self.match_ch('=') {
                    TokenKind::BangEqual
                } else {
                    TokenKind::Bang
                };
                self.make_token(kind, line)
            },
            '=' => {
                let kind = if self.match_ch('=') {
                    TokenKind::EqualEqual
                } else {
                    TokenKind::Equal
                };
                self.make_token(kind, line)
            },
            '<' => {
                let kind = if self.match_ch('=') {
                    TokenKind::LessEqual
                } else {
                    TokenKind::Less
                };
                self.make_token(kind, line)
            },
            '>' => {
                let kind = if self.match_ch('=') {
                    TokenKind::GreaterEqual
                } else {
                    TokenKind::Greater
                };
                self.make_token(kind, line)
            },
            '"' => self.string(line),
            _ => self.error_token("Unexpected character.", line),
        }
    }

    fn is_at_end(&self) -> (r: bool)
        ensures
            r == (self@.current >= self@.source.len()),
    {
        self.current >= self.source.as_str().as_bytes().len()
    }

    /// Reads the next byte and moves over it. The line stays: the caller
    /// counts line terminators.
    fn advance(&mut self) -> (c: char)
        requires
            old(self).in_bounds(),
            old(self)@.current < old(self)@.source.len(),
        ensures
            final(self)@ == (ScannerView { current: old(self)@.current + 1, ..old(self)@ }),
            c == char_at(old(self)@.source, old(self)@.current as int),
    {
        self.current += 1;
        self.source.as_str().as_bytes()[self.current - 1] as char
    }

    fn peek(&self) -> (c: char)
        ensures
            c == char_at(self@.source, self@.current as int),
    {
        if self.is_at_end() {
            '\0'
        } else {
            self.source.as_str().as_bytes()[self.current] as char
        }
    }

    fn peek_next(&self) -> (c: char)
        requires
            self.in_bounds(),
        ensures
            c == char_at(self@.source, self@.current as int + 1),
    {
        if self.current + 1 >= self.source.as_str().as_bytes().len() {
            '\0'
        } else {
            self.source.as_str().as_bytes()[self.current + 1] as char
        }
    }

    /// Moves over the next byte if it is `expected`.
    fn match_ch(&mut self, expected: char) -> (r: bool)
        requires
            old(self).in_bounds(),
        ensures
            r == (old(self)@.current < old(self)@.source.len() && char_at(
                old(self)@.source,
                old(self)@.current as int,
            ) == expected),
            final(self)@ == (ScannerView {
                current: if r {
                    old(self)@.current + 1
                } else {
                    old(self)@.current
                },
                ..old(self)@
            }),
    {
        if self.is_at_end() || self.source.as_str().as_bytes()[self.current] as char != expected {
            false
        } else {
            self.current += 1;
            true
        }
    }

    /// A token of the given kind and line, with the text from `start` to
    /// `current`.
    fn make_token(&self, kind: TokenKind, line: usize) -> (token: Token)
        requires
            self.in_bounds(),
            self@.start == self@.current == self@.source.len() || (self@.start < self@.current
                && self@.source[self@.start as int] < 0x80 && self@.source[self@.current - 1]
                < 0x80),
        ensures
            token.kind == kind,
            token.line == line,
            token.lexeme@ == decode_utf8(
                self@.source.subrange(self@.start as int, self@.current as int),
            ),
    {
        let ghost src = self@.source;
        proof {
            encode_utf8_valid_utf8(self.source@);
            if self.start == self.current {
                is_char_boundary_start_end_of_seq(src);
            } else {
                lemma_ascii_is_boundary(src, self.current - 1);
            }
        }
        let (head, _) = self.source.as_str().split_at(self.current);
        proof {
            valid_utf8_split(src, self.current as int);
            let first = src.subrange(0, self.current as int);
            assert(head.spec_bytes() == first);
            if self.start == self.current {
                is_char_boundary_start_end_of_seq(first);
            } else {
                assert(first[self.start as int] == src[self.start as int]);
                lemma_ascii_is_boundary(first, self.start as int);
            }
        }
        let (_, text) = head.split_at(self.start);
        proof {
            assert(text.spec_bytes() =~= src.subrange(self.start as int, self.current as int));
            encode_utf8_decode_utf8(text@);
        }
        Token { kind, lexeme: text.to_owned(), line }
    }

    fn error_token(&self, message: &str, line: usize) -> (token: Token)
        ensures
            token.kind == TokenKind::Error,
            token.line == line,
            token.lexeme@ == message@,
    {
        Token { kind: TokenKind::Error, lexeme: message.to_owned(), line }
    }
    /// Moves over whitespace and comments, counting the lines.
    fn skip_whitespace(&mut self)
        requires
            old(self).wf(),
        ensures
            final(self).wf(),
            final(self)@.source == old(self)@.source,
            final(self)@.start == old(self)@.start,
            final(self)@.current == after_blanks(old(self)@.source, old(self)@.current as int, false),
            !is_space_at(final(self)@.source, final(self)@.current as int),
            !comment_starts(final(self)@.source, final(self)@.current as int),
    {
        let ghost src = self@.source;
        let ghost target = after_blanks(src, self@.current as int, false);
        loop
            invariant
                self.wf(),
                src == old(self)@.source,
                target == after_blanks(src, old(self)@.current as int, false),
                self@.source == src,
                self@.start == old(self)@.start,
                after_blanks(src, self@.current as int, false) == target,
            decreases src.len() - self@.current,
        {
            let ch = self.peek();
            proof {
                lemma_newlines_bounded(src, self@.current as int);
            }
            match ch {
                ' ' | '\r' | '\t' => {
                    self.advance();
                },
                '\n' => {
                    self.line += 1;
                    self.advance();
                },
                '/' => {
                    if self.peek_next() == '/' {
                        let ghost from = self@.current as int;
                        assert(after_blanks(src, from + 1, true) == target);
                        assert(after_blanks(src, from, true) == target);
                        // a comment goes until the end of the line
                        while self.peek() != '\n' && !self.is_at_end()
                            invariant
                                self.wf(),
                                self@.source == src,
                                self@.start == old(self)@.start,
                                from <= self@.current,
                                char_at(src, from) == '/',
                                char_at(src, from + 1) == '/',
                                after_blanks(src, self@.current as int, true) == target,
                            decreases src.len() - self@.current,
                        {
                            self.advance();
                        }
                        assert(self@.current >= from + 2);
                    } else {
                        return ;
                    }
                },
                _ => {
                    return ;
                },
            }
        }
    }

    /// Scans the rest of a word whose first letter has been read.
    fn identifier(&mut self, line: usize) -> (token: Token)
        requires
            old(self).wf(),
            old(self)@.start + 1 == old(self)@.current,
            is_letter(char_at(old(self)@.source, old(self)@.start as int)),
        ensures
            final(self).wf(),
            final(self)@.source == old(self)@.source,
            final(self)@.start == old(self)@.start,
            final(self)@.current == word_end(old(self)@.source, old(self)@.current as int),
            token.kind == word_kind(
                old(self)@.source,
                old(self)@.start as int,
                final(self)@.current as int,
            ),
            token.line == line,
            token.lexeme@ == decode_utf8(
                old(self)@.source.subrange(old(self)@.start as int, final(self)@.current as int),
            ),
    {
        let ghost src = self@.source;
        let ghost first = self@.current as int;
        while is_word_char(self.peek())
            invariant
                self.wf(),
                self@.source == src,
                self@.start == old(self)@.start,
                self@.start < self@.current,
                word_end(src, self@.current as int) == word_end(src, first),
                src[self@.current - 1] < 0x80,
            decreases src.len() - self@.current,
        {
            self.advance();
        }

        let identifier_type = self.identifier_type();
        self.make_token(identifier_type, line)
    }

    /// The kind of the word from `start` to `current`, found by its first
    /// one or two letters.
    fn identifier_type(&self) -> (kind: TokenKind)
        requires
            self.in_bounds(),
            self@.start < self@.current,
        ensures
            kind == word_kind(self@.source, self@.start as int, self@.current as int),
    {
        proof {
            lemma_keywords_by_first_letters(
                self@.source,
                self@.start as int,
                self@.current as int,
            );
        }
        match self.source.as_str().as_bytes()[self.start] as char {
            'a' => self.check_keyword(1, "nd", TokenKind::And),
            'c' => self.check_keyword(1, "lass", TokenKind::Class),
            'e' => self.check_keyword(1, "lse", TokenKind::Else),
            'i' => self.check_keyword(1, "f", TokenKind::If),
            'n' => self.check_keyword(1, "il", TokenKind::Nil),
            'o' => self.check_keyword(1, "r", TokenKind::Or),
            'p' => self.check_keyword(1, "rint", TokenKind::Print),
            'r' => self.check_keyword(1, "eturn", TokenKind::Return),
            's' => self.check_keyword(1, "uper", TokenKind::Super),
            'v' => self.check_keyword(1, "ar", TokenKind::Var),
            'w' => self.check_keyword(1, "hile", TokenKind::While),
            'f' => {
                if self.current - self.start > 1 {
                    match self.source.as_str().as_bytes()[self.start + 1] as char {
                        'a' => self.check_keyword(2, "lse", TokenKind::False),
                        'o' => self.check_keyword(2, "r", TokenKind::For),
                        'u' => self.check_keyword(2, "n", TokenKind::Fun),
                        _ => TokenKind::Identifier,
                    }
                } else {
                    TokenKind::Identifier
                }
            },
            't' => {
                if self.current - self.start > 1 {
                    match self.source.as_str().as_bytes()[self.start + 1] as char {
                        'h' => self.check_keyword(2, "is", TokenKind::This),
                        'r' => self.check_keyword(2, "ue", TokenKind::True),
                        _ => TokenKind::Identifier,
                    }
                } else {
                    TokenKind::Identifier
                }
            },
            _ => TokenKind::Identifier,
        }
    }

    /// `kind` if the word, from its letter `start` on, is `rest` and nothing
    /// more; else `Identifier`.
    fn check_keyword(&self, start: usize, rest: &str, kind: TokenKind) -> (r: TokenKind)
        requires
            self.in_bounds(),
            start <= self@.current - self@.start,
        ensures
            r == if spells(
                self@.source,
                self@.start + start,
                self@.current as int,
                rest@,
            ) {
                kind
            } else {
                TokenKind::Identifier
            },
    {
        let ghost src = self@.source;
        let length = rest.unicode_len();
        let from = self.start + start;
        if self.current - from != length {
            return TokenKind::Identifier;
        }
        let mut i: usize = 0;
        while i < length
            invariant
                self@.source == src,
                self.in_bounds(),
                from == self@.start + start,
                self@.current - from == length,
                length == rest@.len(),
                i <= length,
                forall|k: int| 0 <= k < i ==> char_at(src, from + k) == #[trigger] rest@[k],
            decreases length - i,
        {
            if self.source.as_str().as_bytes()[from + i] as char != rest.get_char(i) {
                assert(char_at(src, from + i) != rest@[i as int]);
                return TokenKind::Identifier;
            }
            i += 1;
        }
        kind
    }

    /// Scans the rest of a number whose first digit has been read.
    fn number(&mut self, line: usize) -> (token: Token)
        requires
            old(self).wf(),
            old(self)@.start + 1 == old(self)@.current,
            is_digit(char_at(old(self)@.source, old(self)@.start as int)),
        ensures
            final(self).wf(),
            final(self)@.source == old(self)@.source,
            final(self)@.start == old(self)@.start,
            final(self)@.current == number_end(old(self)@.source, old(self)@.current as int),
            token.kind == TokenKind::Number,
            token.line == line,
            token.lexeme@ == decode_utf8(
                old(self)@.source.subrange(old(self)@.start as int, final(self)@.current as int),
            ),
    {
        let ghost src = self@.source;
        let ghost first = self@.current as int;
        while is_digit_char(self.peek())
            invariant
                self.wf(),
                self@.source == src,
                self@.start == old(self)@.start,
                self@.start < self@.current,
                digits_end(src, self@.current as int) == digits_end(src, first),
                src[self@.current - 1] < 0x80,
            decreases src.len() - self@.current,
        {
            self.advance();
        }

        // look for a fractional part
        if self.peek() == '.' && is_digit_char(self.peek_next()) {
            // consume the "."
            self.advance();
            let ghost fraction = self@.current as int;

            while is_digit_char(self.peek())
                invariant
                    self.wf(),
                    self@.source == src,
                    self@.start == old(self)@.start,
                    self@.start < self@.current,
                    fraction <= self@.current,
                    src[self@.current - 1] < 0x80,
                    digits_end(src, self@.current as int) == digits_end(src, fraction),
                decreases src.len() - self@.current,
            {
                self.advance();
            }
        }
        self.make_token(TokenKind::Number, line)
    }

    /// Scans the rest of a string literal whose opening quote has been read.
    fn string(&mut self, line: usize) -> (token: Token)
        requires
            old(self).wf(),
            old(self)@.start + 1 == old(self)@.current,
            char_at(old(self)@.source, old(self)@.start as int) == '"',
        ensures
            final(self).wf(),
            final(self)@.source == old(self)@.source,
            final(self)@.start == old(self)@.start,
            final(self)@.current == end_at(old(self)@.source, old(self)@.start as int),
            token@ == (TokenView {
                kind: kind_at(old(self)@.source, old(self)@.start as int),
                lexeme: lexeme_at(old(self)@.source, old(self)@.start as int),
                line: line as nat,
            }),
    {
        proof {
            reveal(kind_at);
            reveal(end_at);
            reveal(lexeme_at);
        }
        let ghost src = self@.source;
        let ghost first = self@.current as int;
        while self.peek() != '"' && !self.is_at_end()
            invariant
                self.wf(),
                self@.source == src,
                self@.start == old(self)@.start,
                self@.start < self@.current,
                quote_at(src, self@.current as int) == quote_at(src, first),
            decreases src.len() - self@.current,
        {
            proof {
                lemma_newlines_bounded(src, self@.current as int);
            }
            if self.peek() == '\n' {
                self.line += 1;
            }
            self.advance();
        }

        if self.is_at_end() {
            self.error_token("Unterminated string.", line)
        } else {
            self.advance();
            self.make_token(TokenKind::String, line)
        }
    }
}

/// A word is spelled from `start` when its first letter stands at `start`
/// and the rest of it is spelled from the next position.
proof fn lemma_spells_from_first_letter(
    src: Seq<u8>,
    start: int,
    end: int,
    word: Seq<char>,
    rest: Seq<char>,
)
    requires
        word.len() > 0,
        rest == word.subrange(1, word.len() as int),
    ensures
        spells(src, start, end, word) == (char_at(src, start) == word[0] && spells(
            src,
            start + 1,
            end,
            rest,
        )),
{
    if spells(src, start, end, word) {
        assert(char_at(src, start + 0) == word[0]);
        assert forall|i: int| 0 <= i < rest.len() implies char_at(src, start + 1 + i)
            == #[trigger] rest[i] by {
            assert(char_at(src, start + (i + 1)) == word[i + 1]);
        }
    }
    if char_at(src, start) == word[0] && spells(src, start + 1, end, rest) {
        assert forall|i: int| 0 <= i < word.len() implies char_at(src, start + i)
            == #[trigger] word[i] by {
            if i > 0 {
                assert(char_at(src, start + 1 + (i - 1)) == rest[i - 1]);
            }
        }
    }
}

/// Each keyword is told from the others by its first letter, or by its
/// first two, and is then spelled by what follows them.
proof fn lemma_keywords_by_first_letters(src: Seq<u8>, start: int, end: int)
    ensures
        spells(src, start, end, "and"@) == (char_at(src, start) == 'a' && spells(
            src,
            start + 1,
            end,
            "nd"@,
        )),
        spells(src, start, end, "class"@) == (char_at(src, start) == 'c' && spells(
            src,
            start + 1,
            end,
            "lass"@,
        )),
        spells(src, start, end, "else"@) == (char_at(src, start) == 'e' && spells(
            src,
            start + 1,
            end,
            "lse"@,
        )),
        spells(src, start, end, "if"@) == (char_at(src, start) == 'i' && spells(
            src,
            start + 1,
            end,
            "f"@,
        )),
        spells(src, start, end, "nil"@) == (char_at(src, start) == 'n' && spells(
            src,
            start + 1,
            end,
            "il"@,
        )),
        spells(src, start, end, "or"@) == (char_at(src, start) == 'o' && spells(
            src,
            start + 1,
            end,
            "r"@,
        )),
        spells(src, start, end, "print"@) == (char_at(src, start) == 'p' && spells(
            src,
            start + 1,
            end,
            "rint"@,
        )),
        spells(src, start, end, "return"@) == (char_at(src, start) == 'r' && spells(
            src,
            start + 1,
            end,
            "eturn"@,
        )),
        spells(src, start, end, "super"@) == (char_at(src, start) == 's' && spells(
            src,
            start + 1,
            end,
            "uper"@,
        )),
        spells(src, start, end, "var"@) == (char_at(src, start) == 'v' && spells(
            src,
            start + 1,
            end,
            "ar"@,
        )),
        spells(src, start, end, "while"@) == (char_at(src, start) == 'w' && spells(
            src,
            start + 1,
            end,
            "hile"@,
        )),
        spells(src, start, end, "false"@) == (char_at(src, start) == 'f' && char_at(
            src,
            start + 1,
        ) == 'a' && spells(src, start + 2, end, "lse"@)),
        spells(src, start, end, "for"@) == (char_at(src, start) == 'f' && char_at(src, start + 1)
            == 'o' && spells(src, start + 2, end, "r"@)),
        spells(src, start, end, "fun"@) == (char_at(src, start) == 'f' && char_at(src, start + 1)
            == 'u' && spells(src, start + 2, end, "n"@)),
        spells(src, start, end, "this"@) == (char_at(src, start) == 't' && char_at(src, start + 1)
            == 'h' && spells(src, start + 2, end, "is"@)),
        spells(src, start, end, "true"@) == (char_at(src, start) == 't' && char_at(src, start + 1)
            == 'r' && spells(src, start + 2, end, "ue"@)),
{
    reveal_strlit("and");
    reveal_strlit("nd");
    assert("nd"@ =~= "and"@.subrange(1, 3));
    lemma_spells_from_first_letter(src, start, end, "and"@, "nd"@);

    reveal_strlit("class");
    reveal_strlit("lass");
    assert("lass"@ =~= "class"@.subrange(1, 5));
    lemma_spells_from_first_letter(src, start, end, "class"@, "lass"@);

    reveal_strlit("else");
    reveal_strlit("lse");
    assert("lse"@ =~= "else"@.subrange(1, 4));
    lemma_spells_from_first_letter(src, start, end, "else"@, "lse"@);

    reveal_strlit("if");
    reveal_strlit("f");
    assert("f"@ =~= "if"@.subrange(1, 2));
    lemma_spells_from_first_letter(src, start, end, "if"@, "f"@);

    reveal_strlit("nil");
    reveal_strlit("il");
    assert("il"@ =~= "nil"@.subrange(1, 3));
    lemma_spells_from_first_letter(src, start, end, "nil"@, "il"@);

    reveal_strlit("or");
    reveal_strlit("r");
    assert("r"@ =~= "or"@.subrange(1, 2));
    lemma_spells_from_first_letter(src, start, end, "or"@, "r"@);

    reveal_strlit("print");
    reveal_strlit("rint");
    assert("rint"@ =~= "print"@.subrange(1, 5));
    lemma_spells_from_first_letter(src, start, end, "print"@, "rint"@);

    reveal_strlit("return");
    reveal_strlit("eturn");
    assert("eturn"@ =~= "return"@.subrange(1, 6));
    lemma_spells_from_first_letter(src, start, end, "return"@, "eturn"@);

    reveal_strlit("super");
    reveal_strlit("uper");
    assert("uper"@ =~= "super"@.subrange(1, 5));
    lemma_spells_from_first_letter(src, start, end, "super"@, "uper"@);

    reveal_strlit("var");
    reveal_strlit("ar");
    assert("ar"@ =~= "var"@.subrange(1, 3));
    lemma_spells_from_first_letter(src, start, end, "var"@, "ar"@);

    reveal_strlit("while");
    reveal_strlit("hile");
    assert("hile"@ =~= "while"@.subrange(1, 5));
    lemma_spells_from_first_letter(src, start, end, "while"@, "hile"@);

    reveal_strlit("false");
    reveal_strlit("alse");
    assert("alse"@ =~= "false"@.subrange(1, 5));
    assert("lse"@ =~= "alse"@.subrange(1, 4));
    lemma_spells_from_first_letter(src, start, end, "false"@, "alse"@);
    lemma_spells_from_first_letter(src, start + 1, end, "alse"@, "lse"@);

    reveal_strlit("for");
    assert("or"@ =~= "for"@.subrange(1, 3));
    lemma_spells_from_first_letter(src, start, end, "for"@, "or"@);
    lemma_spells_from_first_letter(src, start + 1, end, "or"@, "r"@);

    reveal_strlit("fun");
    reveal_strlit("un");
    reveal_strlit("n");
    assert("un"@ =~= "fun"@.subrange(1, 3));
    assert("n"@ =~= "un"@.subrange(1, 2));
    lemma_spells_from_first_letter(src, start, end, "fun"@, "un"@);
    lemma_spells_from_first_letter(src, start + 1, end, "un"@, "n"@);

    reveal_strlit("this");
    reveal_strlit("his");
    reveal_strlit("is");
    assert("his"@ =~= "this"@.subrange(1, 4));
    assert("is"@ =~= "his"@.subrange(1, 3));
    lemma_spells_from_first_letter(src, start, end, "this"@, "his"@);
    lemma_spells_from_first_letter(src, start + 1, end, "his"@, "is"@);

    reveal_strlit("true");
    reveal_strlit("rue");
    reveal_strlit("ue");
    assert("rue"@ =~= "true"@.subrange(1, 4));
    assert("ue"@ =~= "rue"@.subrange(1, 3));
    lemma_spells_from_first_letter(src, start, end, "true"@, "rue"@);
    lemma_spells_from_first_letter(src, start + 1, end, "rue"@, "ue"@);
}

} // verus!
