//! The lexer: raw source characters to positioned tokens.
//!
//! The executable functions here are proved against a specification lexer
//! (`next_token_spec`): skipping whitespace and `#` comments, tracking the
//! 1-based row and the column across everything consumed, and classifying
//! the token that starts at the cursor.  End-of-input yields an `End` token
//! and is idempotent: every later call returns `End` again.  An
//! unrecognized character yields an `Error`-kind token rather than aborting
//! the lexer; making that fatal is the compiler's responsibility.

use crate::chunk::Chunk;
use crate::diag::Diagnostic;
use vstd::prelude::*;

verus! {

/// The classification of a token.
#[derive(Copy, Clone, Debug, PartialEq, Eq, Structural)]
pub enum TokenType {
    /// End of input.
    End,
    /// An unrecognized character; carries no text of its own.
    Error,
    /// A run of decimal digits.
    Integer,
    /// A run of letters, digits and underscores starting with a letter or
    /// an underscore.
    Identifier,
    /// `+`
    Add,
    /// `-`
    Subtract,
    /// `*`
    Multiply,
    /// `=`
    Assign,
    /// `(`
    LeftParen,
    /// `)`
    RightParen,
    /// `;`
    Semicolon,
}

/// A classified, positioned lexeme.  `row` and `column` are the 1-based
/// position of the token's first character; `start` and `length` identify
/// the lexeme inside the source buffer.
#[derive(Copy, Clone, Debug, PartialEq, Eq, Structural)]
pub struct Token {
    pub is: TokenType,
    pub row: usize,
    pub column: usize,
    pub start: usize,
    pub length: usize,
}

impl Token {
    /// The token a compiler starts from: `End` at the origin.
    pub fn new() -> (t: Token)
        ensures
            t == (Token { is: TokenType::End, row: 0, column: 0, start: 0, length: 0 }),
    {
        Token { is: TokenType::End, row: 0, column: 0, start: 0, length: 0 }
    }
}

/// The lexer's cursor: an offset into the source and the 1-based row and
/// the count of characters consumed on the current line.
pub struct LexState {
    pub pos: int,
    pub row: int,
    pub col: int,
}

/// A token as the specification lexer describes it.
pub struct SpecToken {
    pub kind: TokenType,
    pub row: int,
    pub col: int,
    pub start: int,
    pub length: int,
}

/// One specification lexing step: the token found and the cursor after it.
pub struct LexOut {
    pub tok: SpecToken,
    pub next: LexState,
}

/// Consuming one character: a newline moves to the start of the next row,
/// anything else advances the column.
pub open spec fn lex_advance(s: LexState, c: char) -> LexState {
    if c == '\n' {
        LexState { pos: s.pos + 1, row: s.row + 1, col: 0 }
    } else {
        LexState { pos: s.pos + 1, row: s.row, col: s.col + 1 }
    }
}

pub open spec fn is_space(c: char) -> bool {
    c == ' ' || c == '\t' || c == '\r' || c == '\n'
}

pub open spec fn is_digit(c: char) -> bool {
    48 <= (c as u32) && (c as u32) <= 57
}

pub open spec fn is_ident_start(c: char) -> bool {
    (65 <= (c as u32) && (c as u32) <= 90) || (97 <= (c as u32) && (c as u32) <= 122) || (c as u32)
        == 95
}

pub open spec fn is_ident_char(c: char) -> bool {
    is_ident_start(c) || is_digit(c)
}

/// The cursor after skipping whitespace and comments.  A `#` starts a
/// comment that consumes characters through the end of the line; row and
/// column advance across everything skipped.
pub open spec fn skip_blank(src: Seq<char>, s: LexState, in_comment: bool) -> LexState
    decreases src.len() - s.pos
        when 0 <= s.pos <= src.len()
{
    if s.pos >= src.len() {
        s
    } else {
        let c = src[s.pos];
        if in_comment {
            skip_blank(src, lex_advance(s, c), c != '\n')
        } else if c == '#' {
            skip_blank(src, lex_advance(s, c), true)
        } else if is_space(c) {
            skip_blank(src, lex_advance(s, c), false)
        } else {
            s
        }
    }
}

/// The end of the run of digits starting at `i`.
pub open spec fn digit_run_end(src: Seq<char>, i: int) -> int
    decreases src.len() - i
        when 0 <= i <= src.len()
{
    if i >= src.len() {
        i
    } else if is_digit(src[i]) {
        digit_run_end(src, i + 1)
    } else {
        i
    }
}

/// The end of the run of identifier characters starting at `i`.
pub open spec fn ident_run_end(src: Seq<char>, i: int) -> int
    decreases src.len() - i
        when 0 <= i <= src.len()
{
    if i >= src.len() {
        i
    } else if is_ident_char(src[i]) {
        ident_run_end(src, i + 1)
    } else {
        i
    }
}

/// What `digit_run_end` returns: the first index at or after `i` that is
/// not a digit, with everything before it a digit.
pub proof fn lemma_digit_run_end(src: Seq<char>, i: int)
    requires
        0 <= i <= src.len(),
    ensures
        i <= digit_run_end(src, i) <= src.len(),
        forall|k: int| i <= k < digit_run_end(src, i) ==> is_digit(src[k]),
        digit_run_end(src, i) < src.len() ==> !is_digit(src[digit_run_end(src, i)]),
    decreases src.len() - i,
{
    if i < src.len() && is_digit(src[i]) {
        lemma_digit_run_end(src, i + 1);
    }
}

/// What `ident_run_end` returns, in the same shape.
pub proof fn lemma_ident_run_end(src: Seq<char>, i: int)
    requires
        0 <= i <= src.len(),
    ensures
        i <= ident_run_end(src, i) <= src.len(),
        forall|k: int| i <= k < ident_run_end(src, i) ==> is_ident_char(src[k]),
        ident_run_end(src, i) < src.len() ==> !is_ident_char(src[ident_run_end(src, i)]),
    decreases src.len() - i,
{
    if i < src.len() && is_ident_char(src[i]) {
        lemma_ident_run_end(src, i + 1);
    }
}

/// The cursor never moves backwards while skipping, and stays in bounds.
pub proof fn lemma_skip_blank_bounds(src: Seq<char>, s: LexState, in_comment: bool)
    requires
        0 <= s.pos <= src.len(),
    ensures
        s.pos <= skip_blank(src, s, in_comment).pos <= src.len(),
    decreases src.len() - s.pos,
{
    if s.pos < src.len() {
        let c = src[s.pos];
        if in_comment {
            lemma_skip_blank_bounds(src, lex_advance(s, c), c != '\n');
        } else if c == '#' {
            lemma_skip_blank_bounds(src, lex_advance(s, c), true);
        } else if is_space(c) {
            lemma_skip_blank_bounds(src, lex_advance(s, c), false);
        }
    }
}

/// A one-character token at the cursor.
pub open spec fn single_char_token(kind: TokenType, p: LexState) -> LexOut {
    LexOut {
        tok: SpecToken { kind, row: p.row, col: p.col + 1, start: p.pos, length: 1 },
        next: LexState { pos: p.pos + 1, row: p.row, col: p.col + 1 },
    }
}

/// Classify and measure the token that starts exactly at cursor `p`
/// (whitespace and comments already skipped).
pub open spec fn scan_token(src: Seq<char>, p: LexState) -> LexOut {
    if p.pos >= src.len() {
        LexOut {
            tok: SpecToken {
                kind: TokenType::End,
                row: p.row,
                col: p.col + 1,
                start: p.pos,
                length: 0,
            },
            next: p,
        }
    } else {
        let c = src[p.pos];
        if is_digit(c) {
            let e = digit_run_end(src, p.pos);
            LexOut {
                tok: SpecToken {
                    kind: TokenType::Integer,
                    row: p.row,
                    col: p.col + 1,
                    start: p.pos,
                    length: e - p.pos,
                },
                next: LexState { pos: e, row: p.row, col: p.col + (e - p.pos) },
            }
        } else if is_ident_start(c) {
            let e = ident_run_end(src, p.pos);
            LexOut {
                tok: SpecToken {
                    kind: TokenType::Identifier,
                    row: p.row,
                    col: p.col + 1,
                    start: p.pos,
                    length: e - p.pos,
                },
                next: LexState { pos: e, row: p.row, col: p.col + (e - p.pos) },
            }
        } else if c == '+' {
            single_char_token(TokenType::Add, p)
        } else if c == '-' {
            single_char_token(TokenType::Subtract, p)
        } else if c == '*' {
            single_char_token(TokenType::Multiply, p)
        } else if c == '=' {
            single_char_token(TokenType::Assign, p)
        } else if c == '(' {
            single_char_token(TokenType::LeftParen, p)
        } else if c == ')' {
            single_char_token(TokenType::RightParen, p)
        } else if c == ';' {
            single_char_token(TokenType::Semicolon, p)
        } else {
            single_char_token(TokenType::Error, p)
        }
    }
}

/// The cursor after skipping leading whitespace and comments from the
/// very start of a source text.
pub open spec fn blank_skip(src: Seq<char>) -> LexState {
    skip_blank(src, LexState { pos: 0, row: 1, col: 0 }, false)
}

/// The specification lexer: skip whitespace and comments, then scan one
/// token.
pub open spec fn next_token_spec(src: Seq<char>, s: LexState) -> LexOut {
    scan_token(src, skip_blank(src, s, false))
}

/// The executable token `t` carries exactly the fields of the
/// specification token `st`.
pub open spec fn tok_matches(t: Token, st: SpecToken) -> bool {
    &&& t.is == st.kind
    &&& t.row == st.row
    &&& t.column == st.col
    &&& t.start == st.start
    &&& t.length == st.length
}

/// A token is consistent with the source it was lexed from: it lies inside
/// the buffer, only `End` is empty, and a literal's characters really are
/// of its class.
pub open spec fn token_wf(t: Token, src: Seq<char>) -> bool {
    &&& t.start + t.length <= src.len()
    &&& (t.is == TokenType::End <==> t.length == 0)
    &&& (t.is == TokenType::Integer ==> forall|k: int|
        t.start <= k < t.start + t.length ==> is_digit(src[k]))
    &&& (t.is == TokenType::Identifier ==> forall|k: int|
        t.start <= k < t.start + t.length ==> is_ident_char(src[k]))
}

/// The compiler's state: a cursor into the source, one token of lookahead
/// (`previous` and `current`), the first diagnostic if one was latched,
/// and the chunk being emitted.  Created fresh per compilation.
pub struct Compiler {
    pub source: Vec<char>,
    pub pos: usize,
    pub row: usize,
    pub column: usize,
    pub previous: Token,
    pub current: Token,
    pub error: Option<Diagnostic>,
    pub chunk: Chunk,
}

impl Compiler {
    /// The cursor fields, as the specification lexer sees them.
    pub open spec fn lex_state(self) -> LexState {
        LexState { pos: self.pos as int, row: self.row as int, col: self.column as int }
    }

    /// The cursor is inside the buffer, the row is 1-based and bounded by
    /// the characters consumed, and the buffer leaves room to count.
    pub open spec fn lex_wf(self) -> bool {
        &&& self.source@.len() < usize::MAX
        &&& self.pos <= self.source@.len()
        &&& 1 <= self.row
        &&& self.row <= self.pos + 1
        &&& self.column <= self.pos
    }

    /// A fresh compiler: empty source, cursor at row 1, both lookahead
    /// slots holding `End`, no diagnostic, an empty chunk.
    pub fn new() -> (cm: Compiler)
        ensures
            cm.source@ == Seq::<char>::empty(),
            cm.pos == 0 && cm.row == 1 && cm.column == 0,
            cm.previous == (Token { is: TokenType::End, row: 0, column: 0, start: 0, length: 0 }),
            cm.current == (Token { is: TokenType::End, row: 0, column: 0, start: 0, length: 0 }),
            cm.error is None,
            cm.chunk.code@ == Seq::<crate::chunk::OpCode>::empty(),
            cm.chunk.constants@ == Seq::<crate::value::Value>::empty(),
            cm.chunk.lines@ == Seq::<crate::chunk::Pos>::empty(),
            cm.lex_wf(),
    {
        Compiler {
            source: Vec::new(),
            pos: 0,
            row: 1,
            column: 0,
            previous: Token::new(),
            current: Token::new(),
            error: None,
            chunk: Chunk::new(),
        }
    }
}

/// Everything a pure lexing step leaves alone.
pub open spec fn same_except_cursor(a: Compiler, b: Compiler) -> bool {
    &&& a.source@ == b.source@
    &&& a.previous == b.previous
    &&& a.current == b.current
    &&& a.error == b.error
    &&& a.chunk == b.chunk
}

/// Consume and return the character at the cursor, advancing the row and
/// column; at end of input, return `'\0'` and stay put.
pub fn next_char(cm: &mut Compiler) -> (c: char)
    requires
        old(cm).lex_wf(),
    ensures
        final(cm).lex_wf(),
        same_except_cursor(*old(cm), *final(cm)),
        old(cm).pos >= old(cm).source@.len() ==> c == '\0' && final(cm).lex_state() == old(cm).lex_state(),
        old(cm).pos < old(cm).source@.len() ==> c == old(cm).source@[old(cm).pos as int] && final(cm).lex_state() == lex_advance(old(cm).lex_state(), c),
{
    if cm.pos == cm.source.len() {
        return '\0';
    }
    let c = cm.source[cm.pos];
    cm.pos = cm.pos + 1;
    if c == '\n' {
        cm.row = cm.row + 1;
        cm.column = 0;
    } else {
        cm.column = cm.column + 1;
    }
    c
}

/// The character at the cursor without consuming it; `'\0'` at end of
/// input.
pub fn peek_char(cm: &mut Compiler) -> (c: char)
    ensures
        *final(cm) == *old(cm),
        old(cm).pos >= old(cm).source@.len() ==> c == '\0',
        old(cm).pos < old(cm).source@.len() ==> c == old(cm).source@[old(cm).pos as int],
{
    if cm.pos >= cm.source.len() {
        return '\0';
    }
    cm.source[cm.pos]
}

fn ch_is_space(c: char) -> (r: bool)
    ensures
        r == is_space(c),
{
    c == ' ' || c == '\t' || c == '\r' || c == '\n'
}

fn ch_is_digit(c: char) -> (r: bool)
    ensures
        r == is_digit(c),
{
    let u = c as u32;
    48 <= u && u <= 57
}

fn ch_is_ident_start(c: char) -> (r: bool)
    ensures
        r == is_ident_start(c),
{
    let u = c as u32;
    (65 <= u && u <= 90) || (97 <= u && u <= 122) || u == 95
}

fn ch_is_ident_char(c: char) -> (r: bool)
    ensures
        r == is_ident_char(c),
{
    ch_is_ident_start(c) || ch_is_digit(c)
}

/// Lex the next token at the cursor, skipping whitespace and comments.
/// The result and the new cursor are exactly those of `next_token_spec`.
pub fn next_token(cm: &mut Compiler) -> (t: Token)
    requires
        old(cm).lex_wf(),
    ensures
        final(cm).lex_wf(),
        same_except_cursor(*old(cm), *final(cm)),
        ({
            let o = next_token_spec(old(cm).source@, old(cm).lex_state());
            tok_matches(t, o.tok) && final(cm).lex_state() == o.next
        }),
        token_wf(t, old(cm).source@),
        t.start + t.length <= final(cm).pos,
        old(cm).pos <= t.start,
{
    let ghost src = cm.source@;
    let ghost s0 = cm.lex_state();
    let mut in_comment = false;
    loop
        invariant
            cm.lex_wf(),
            same_except_cursor(*old(cm), *cm),
            src == cm.source@,
            skip_blank(src, s0, false) == skip_blank(src, cm.lex_state(), in_comment),
            s0.pos <= cm.lex_state().pos,
        ensures
            cm.lex_wf(),
            same_except_cursor(*old(cm), *cm),
            src == cm.source@,
            cm.lex_state() == skip_blank(src, s0, false),
            s0.pos <= cm.lex_state().pos,
            cm.pos < src.len() ==> !is_space(src[cm.pos as int]) && src[cm.pos as int] != '#',
        decreases src.len() - cm.pos,
    {
        if cm.pos >= cm.source.len() {
            proof {
                assert(skip_blank(src, cm.lex_state(), in_comment) == cm.lex_state());
            }
            break;
        }
        let c = cm.source[cm.pos];
        let ghost before = cm.lex_state();
        if in_comment {
            let _ = next_char(cm);
            in_comment = c != '\n';
            proof {
                assert(skip_blank(src, before, true) == skip_blank(src, cm.lex_state(), in_comment));
            }
        } else if c == '#' {
            let _ = next_char(cm);
            in_comment = true;
            proof {
                assert(skip_blank(src, before, false) == skip_blank(src, cm.lex_state(), true));
            }
        } else if ch_is_space(c) {
            let _ = next_char(cm);
            proof {
                assert(skip_blank(src, before, false) == skip_blank(src, cm.lex_state(), false));
            }
        } else {
            proof {
                assert(skip_blank(src, cm.lex_state(), false) == cm.lex_state());
            }
            break;
        }
    }
    let ghost p = cm.lex_state();
    if cm.pos >= cm.source.len() {
        let t = Token {
            is: TokenType::End,
            row: cm.row,
            column: cm.column + 1,
            start: cm.pos,
            length: 0,
        };
        return t;
    }
    let c = cm.source[cm.pos];
    let srow = cm.row;
    let scol = cm.column + 1;
    let start = cm.pos;
    if ch_is_digit(c) {
        loop
            invariant
                cm.lex_wf(),
                same_except_cursor(*old(cm), *cm),
                src == cm.source@,
                start <= cm.pos <= src.len(),
                cm.row == srow,
                scol - 1 + (cm.pos - start) == cm.column,
                digit_run_end(src, start as int) == digit_run_end(src, cm.pos as int),
            ensures
                cm.lex_wf(),
                same_except_cursor(*old(cm), *cm),
                src == cm.source@,
                start <= cm.pos <= src.len(),
                cm.row == srow,
                scol - 1 + (cm.pos - start) == cm.column,
                cm.pos as int == digit_run_end(src, start as int),
            decreases src.len() - cm.pos,
        {
            if cm.pos >= cm.source.len() {
                break;
            }
            if !ch_is_digit(cm.source[cm.pos]) {
                break;
            }
            proof {
                assert(src[cm.pos as int] != '\n');
            }
            let _ = next_char(cm);
        }
        proof {
            lemma_digit_run_end(src, start as int);
        }
        return Token {
            is: TokenType::Integer,
            row: srow,
            column: scol,
            start,
            length: cm.pos - start,
        };
    }
    if ch_is_ident_start(c) {
        loop
            invariant
                cm.lex_wf(),
                same_except_cursor(*old(cm), *cm),
                src == cm.source@,
                start <= cm.pos <= src.len(),
                cm.row == srow,
                scol - 1 + (cm.pos - start) == cm.column,
                ident_run_end(src, start as int) == ident_run_end(src, cm.pos as int),
            ensures
                cm.lex_wf(),
                same_except_cursor(*old(cm), *cm),
                src == cm.source@,
                start <= cm.pos <= src.len(),
                cm.row == srow,
                scol - 1 + (cm.pos - start) == cm.column,
                cm.pos as int == ident_run_end(src, start as int),
            decreases src.len() - cm.pos,
        {
            if cm.pos >= cm.source.len() {
                break;
            }
            if !ch_is_ident_char(cm.source[cm.pos]) {
                break;
            }
            proof {
                assert(src[cm.pos as int] != '\n');
            }
            let _ = next_char(cm);
        }
        proof {
            lemma_ident_run_end(src, start as int);
        }
        return Token {
            is: TokenType::Identifier,
            row: srow,
            column: scol,
            start,
            length: cm.pos - start,
        };
    }
    proof {
        assert(src[start as int] != '\n');
    }
    let _ = next_char(cm);
    let kind = if c == '+' {
        TokenType::Add
    } else if c == '-' {
        TokenType::Subtract
    } else if c == '*' {
        TokenType::Multiply
    } else if c == '=' {
        TokenType::Assign
    } else if c == '(' {
        TokenType::LeftParen
    } else if c == ')' {
        TokenType::RightParen
    } else if c == ';' {
        TokenType::Semicolon
    } else {
        TokenType::Error
    };
    Token { is: kind, row: srow, column: scol, start, length: 1 }
}

/// Shift `current` into `previous` and lex a new `current` token.  Once
/// `current` is `End`, further calls change nothing but `previous`:
/// repeated `End` means "no more input", never an error.  A genuine
/// lexical error latches the first diagnostic and otherwise lexing
/// continues.
pub fn advance(cm: &mut Compiler)
    requires
        old(cm).lex_wf(),
        old(cm).current.start + old(cm).current.length <= old(cm).pos,
        token_wf(old(cm).current, old(cm).source@),
    ensures
        final(cm).lex_wf(),
        final(cm).source@ == old(cm).source@,
        final(cm).chunk == old(cm).chunk,
        final(cm).previous == old(cm).current,
        token_wf(final(cm).current, final(cm).source@),
        final(cm).current.start + final(cm).current.length <= final(cm).pos,
        old(cm).current.start <= final(cm).current.start,
        old(cm).current.is != TokenType::End ==> old(cm).current.start + old(cm).current.length
            <= final(cm).current.start,
        old(cm).current.is == TokenType::End ==> final(cm).current == old(cm).current && final(cm).error == old(cm).error && final(cm).lex_state() == old(cm).lex_state(),
        old(cm).current.is != TokenType::End ==> ({
            let o = next_token_spec(old(cm).source@, old(cm).lex_state());
            &&& tok_matches(final(cm).current, o.tok)
            &&& final(cm).lex_state() == o.next
            &&& (o.tok.kind != TokenType::Error ==> final(cm).error == old(cm).error)
            &&& (o.tok.kind == TokenType::Error && old(cm).error is Some ==> final(cm).error == old(cm).error)
            &&& (o.tok.kind == TokenType::Error && old(cm).error is None ==> final(cm).error
                == Some(
                Diagnostic {
                    kind: crate::diag::DiagKind::UnexpectedCharacter,
                    row: o.tok.row as usize,
                    column: o.tok.col as usize,
                },
            ))
        }),
{
    cm.previous = cm.current;
    if matches!(cm.previous.is, TokenType::End) {
        return ;
    }
    proof {
        lemma_skip_blank_bounds(cm.source@, cm.lex_state(), false);
    }
    let t = next_token(cm);
    if matches!(t.is, TokenType::Error) {
        if cm.error.is_none() {
            cm.error = Some(
                Diagnostic {
                    kind: crate::diag::DiagKind::UnexpectedCharacter,
                    row: t.row,
                    column: t.column,
                },
            );
        }
    }
    cm.current = t;
}

} // verus!
