//! The compiler: a single-pass precedence-climbing (Pratt) parser that
//! emits bytecode as it parses, with no intermediate syntax tree.
//!
//! `parse_precedence` parses a prefix term and then keeps consuming infix
//! operators whose precedence is at least its argument, recursing one level
//! higher for the left-associative arithmetic operators; assignment is
//! right-associative and recurses at its own level.  Each literal appends a
//! constant and a `Push`; each binary operator first compiles both operands
//! and then appends its opcode.  The first error is latched as a
//! `Diagnostic` and later ones are suppressed; a failed compile returns the
//! diagnostic and the chunk is not to be executed.

use crate::chunk::{Chunk, OpCode, Pos};
use crate::diag::{DiagKind, Diagnostic, InterpretError};
use crate::lexer::{
    advance, blank_skip, is_digit, is_ident_start, lemma_skip_blank_bounds, next_token,
    next_token_spec, skip_blank, tok_matches, token_wf, Compiler, LexState, SpecToken, Token,
    TokenType,
};
use crate::value::{seq_extends, Interner, Value};
use crate::vm::{fault_reported, spec_run, Hymn, MachineState, RunOutcome};
use vstd::prelude::*;

verus! {

/// The precedence ladder, lowest to highest.  Left-associative binary
/// operators recurse one level above their own; right-associative ones (
/// assignment) recurse at their own level.
#[derive(Copy, Clone, Debug, PartialEq, Eq, Structural)]
pub enum Precedence {
    Lowest,
    Assign,
    Bits,
    Or,
    And,
    Equality,
    Compare,
    Term,
    Factor,
    Unary,
    Call,
    Primary,
}

/// The rank of a precedence level on the ladder.
pub open spec fn spec_prec_value(p: Precedence) -> u8 {
    match p {
        Precedence::Lowest => 0,
        Precedence::Assign => 1,
        Precedence::Bits => 2,
        Precedence::Or => 3,
        Precedence::And => 4,
        Precedence::Equality => 5,
        Precedence::Compare => 6,
        Precedence::Term => 7,
        Precedence::Factor => 8,
        Precedence::Unary => 9,
        Precedence::Call => 10,
        Precedence::Primary => 11,
    }
}

/// Executable rank of a precedence level.
pub fn prec_value(p: Precedence) -> (r: u8)
    ensures
        r == spec_prec_value(p),
{
    match p {
        Precedence::Lowest => 0,
        Precedence::Assign => 1,
        Precedence::Bits => 2,
        Precedence::Or => 3,
        Precedence::And => 4,
        Precedence::Equality => 5,
        Precedence::Compare => 6,
        Precedence::Term => 7,
        Precedence::Factor => 8,
        Precedence::Unary => 9,
        Precedence::Call => 10,
        Precedence::Primary => 11,
    }
}

/// The precedence at which a token kind continues an expression as an
/// infix operator; rank 0 for every token that is no infix operator.
pub open spec fn spec_infix_prec(t: TokenType) -> u8 {
    match t {
        TokenType::Add => spec_prec_value(Precedence::Term),
        TokenType::Subtract => spec_prec_value(Precedence::Term),
        TokenType::Multiply => spec_prec_value(Precedence::Factor),
        _ => 0,
    }
}

/// Executable infix precedence of a token kind.
pub fn infix_prec(t: TokenType) -> (r: u8)
    ensures
        r == spec_infix_prec(t),
        r <= 8,
        r >= 1 ==> (t == TokenType::Add || t == TokenType::Subtract || t == TokenType::Multiply),
{
    match t {
        TokenType::Add => 7,
        TokenType::Subtract => 7,
        TokenType::Multiply => 8,
        _ => 0,
    }
}

/// The numeric value of the digit character `c`.
pub open spec fn digit_of(c: char) -> int {
    (c as u32) - 48
}

/// The value of the run of digit characters `src[start .. end]`, read as a
/// decimal numeral.
pub open spec fn digits_val(src: Seq<char>, start: int, end: int) -> int
    decreases end - start
        when start <= end
{
    if end <= start {
        0
    } else {
        10 * digits_val(src, start, end - 1) + digit_of(src[end - 1])
    }
}

/// A decimal numeral's value is non-negative and never shrinks as digits
/// are appended.
pub proof fn lemma_digits_val_grows(src: Seq<char>, start: int, i: int, j: int)
    requires
        0 <= start <= i <= j <= src.len(),
        forall|k: int| start <= k < j ==> is_digit(#[trigger] src[k]),
    ensures
        0 <= digits_val(src, start, i) <= digits_val(src, start, j),
    decreases j - i,
{
    if i == j {
        lemma_digits_val_nonneg(src, start, i);
    } else {
        lemma_digits_val_grows(src, start, i, j - 1);
        assert(is_digit(src[j - 1]));
        assert(digits_val(src, start, j) == 10 * digits_val(src, start, j - 1) + digit_of(
            src[j - 1],
        ));
    }
}

/// A decimal numeral's value is non-negative.
pub proof fn lemma_digits_val_nonneg(src: Seq<char>, start: int, end: int)
    requires
        0 <= start <= end <= src.len(),
        forall|k: int| start <= k < end ==> is_digit(#[trigger] src[k]),
    ensures
        digits_val(src, start, end) >= 0,
    decreases end - start,
{
    if end > start {
        lemma_digits_val_nonneg(src, start, end - 1);
        assert(is_digit(src[end - 1]));
    }
}


/// The state of a specification-level parse: the source, the lexer cursor,
/// the one-token lookahead, the latched diagnostic, the chunk built so far
/// and the session's intern pool.  The executable compiler is proved to
/// produce exactly the states this model assigns.
pub struct ParseState {
    pub src: Seq<char>,
    pub lex: LexState,
    pub prev: Token,
    pub cur: Token,
    pub err: Option<Diagnostic>,
    pub code: Seq<OpCode>,
    pub consts: Seq<Value>,
    pub lines: Seq<Pos>,
    pub pool: Seq<Seq<char>>,
}

/// The executable token carrying a specification token's fields.
pub open spec fn tok_of(st: SpecToken) -> Token {
    Token {
        is: st.kind,
        row: st.row as usize,
        column: st.col as usize,
        start: st.start as usize,
        length: st.length as usize,
    }
}

/// Latch a diagnostic: keep an earlier one, record this one otherwise.
pub open spec fn latch(err: Option<Diagnostic>, kind: DiagKind, row: usize, column: usize) -> Option<
    Diagnostic,
> {
    if err is Some {
        err
    } else {
        Some(Diagnostic { kind, row, column })
    }
}

/// The model state is sound: the cursor is inside the source, the source
/// is addressable, and the lookahead token was already consumed.
pub open spec fn pstate_wf(s: ParseState) -> bool {
    &&& s.src.len() < usize::MAX
    &&& 0 <= s.lex.pos <= s.src.len()
    &&& s.cur.start + s.cur.length <= s.lex.pos
    &&& (s.cur.is == TokenType::End <==> s.cur.length == 0)
}

/// The remaining input from the lookahead token on: the parse's
/// termination measure.
pub open spec fn pmeasure(s: ParseState) -> int {
    s.src.len() - s.cur.start
}

/// What the specification lexer yields, under a sound cursor: the token
/// starts at or after the cursor, covers `length` characters ending at the
/// new cursor, and only `End` is empty.
pub proof fn lemma_next_token_spec_bounds(src: Seq<char>, s: LexState)
    requires
        0 <= s.pos <= src.len(),
    ensures
        ({
            let o = next_token_spec(src, s);
            &&& s.pos <= o.tok.start
            &&& o.tok.start + o.tok.length <= o.next.pos <= src.len()
            &&& (o.tok.kind == TokenType::End <==> o.tok.length == 0)
            &&& o.tok.length >= 0
        }),
{
    lemma_skip_blank_bounds(src, s, false);
    let p = skip_blank(src, s, false);
    let o = next_token_spec(src, s);
    if p.pos < src.len() {
        let c = src[p.pos];
        if is_digit(c) {
            crate::lexer::lemma_digit_run_end(src, p.pos);
        } else if is_ident_start(c) {
            crate::lexer::lemma_ident_run_end(src, p.pos);
        }
    }
}

/// One specification step of `advance`: shift the lookahead and lex the
/// next token, latching the first genuine lexical error; at `End`, only
/// the shift happens.
pub open spec fn st_advance(s: ParseState) -> ParseState {
    if s.cur.is == TokenType::End {
        ParseState { prev: s.cur, ..s }
    } else {
        let o = next_token_spec(s.src, s.lex);
        let t = tok_of(o.tok);
        let err = if t.is == TokenType::Error {
            latch(s.err, DiagKind::UnexpectedCharacter, t.row, t.column)
        } else {
            s.err
        };
        ParseState { prev: s.cur, cur: t, lex: o.next, err, ..s }
    }
}

/// `st_advance` keeps the state sound and, over a non-`End` token, moves
/// the lookahead strictly forward.
pub proof fn lemma_st_advance(s: ParseState)
    requires
        pstate_wf(s),
    ensures
        pstate_wf(st_advance(s)),
        pmeasure(st_advance(s)) <= pmeasure(s),
        s.cur.is != TokenType::End ==> s.cur.start + s.cur.length <= st_advance(s).cur.start,
        s.cur.is != TokenType::End && s.cur.length >= 1 ==> pmeasure(st_advance(s)) < pmeasure(s),
{
    if s.cur.is != TokenType::End {
        lemma_next_token_spec_bounds(s.src, s.lex);
    }
}

/// The source text of a token.
pub open spec fn lexeme(src: Seq<char>, t: Token) -> Seq<char> {
    src.subrange(t.start as int, t.start + t.length)
}

/// One specification step of `number`: the literal in `prev`, appended to
/// the constants and pushed -- or, when its value exceeds the 64-bit
/// range, a latched diagnostic.
pub open spec fn st_number(s: ParseState) -> ParseState {
    let t = s.prev;
    let v = digits_val(s.src, t.start as int, t.start + t.length);
    if v <= i64::MAX {
        ParseState {
            code: s.code.push(OpCode::Push(s.consts.len() as usize)),
            consts: s.consts.push(Value::Integer(v as i64)),
            lines: s.lines.push(Pos { row: t.row, column: t.column }),
            ..s
        }
    } else {
        ParseState { err: latch(s.err, DiagKind::IntegerTooLarge, t.row, t.column), ..s }
    }
}

/// Append one instruction to the model chunk.
pub open spec fn st_emit(s: ParseState, op: OpCode, t: Token) -> ParseState {
    ParseState {
        code: s.code.push(op),
        lines: s.lines.push(Pos { row: t.row, column: t.column }),
        ..s
    }
}

/// The specification parser: one expression whose operators bind at least
/// as tightly as `min_prec`, in precedence-climbing form.  It consumes the
/// first token; an integer literal or an identifier becomes a constant and
/// a `Push`/`Load` (an assignment parses its right side at its own level,
/// then binds and reloads); `-` parses a `Unary`-level operand and
/// negates; `(` parses a full expression and requires `)`; anything else
/// latches a diagnostic at the offending token.  `st_infix` then folds
/// left-associative operators of sufficient precedence, each recursing one
/// level higher.  `fuel` only bounds the recursion; any fuel above the
/// remaining input gives the same state (`lemma_st_parse_fuel`), and
/// `st_parse_at` fixes the canonical amount.
pub open spec fn st_parse(s: ParseState, min_prec: u8, fuel: nat) -> ParseState
    decreases fuel, 1int
{
    if fuel == 0 {
        s
    } else {
        let s1 = st_advance(s);
        if s1.prev.is == TokenType::Integer {
            st_infix(st_number(s1), min_prec, (fuel - 1) as nat)
        } else if s1.prev.is == TokenType::Identifier {
            let t = s1.prev;
            let text = lexeme(s1.src, t);
            let pool2 = crate::value::pool_after(s1.pool, text);
            let h = crate::value::pool_find(pool2, text) as usize;
            let k = s1.consts.len() as usize;
            let s2 = ParseState { pool: pool2, consts: s1.consts.push(Value::Str(h)), ..s1 };
            if min_prec <= 1 && s2.cur.is == TokenType::Assign {
                let s3 = st_parse(st_advance(s2), 1, (fuel - 1) as nat);
                let s4 = st_emit(st_emit(s3, OpCode::Insert(k), t), OpCode::Load(k), t);
                st_infix(s4, min_prec, (fuel - 1) as nat)
            } else {
                st_infix(st_emit(s2, OpCode::Load(k), t), min_prec, (fuel - 1) as nat)
            }
        } else if s1.prev.is == TokenType::Subtract {
            let t = s1.prev;
            let s2 = st_parse(s1, 9, (fuel - 1) as nat);
            st_infix(st_emit(s2, OpCode::Negate, t), min_prec, (fuel - 1) as nat)
        } else if s1.prev.is == TokenType::LeftParen {
            let s2 = st_parse(s1, 1, (fuel - 1) as nat);
            let s3 = if s2.cur.is == TokenType::RightParen {
                st_advance(s2)
            } else {
                ParseState {
                    err: latch(s2.err, DiagKind::ExpectedRightParen, s2.cur.row, s2.cur.column),
                    ..s2
                }
            };
            st_infix(s3, min_prec, (fuel - 1) as nat)
        } else {
            ParseState {
                err: latch(s1.err, DiagKind::ExpectedExpression, s1.prev.row, s1.prev.column),
                ..s1
            }
        }
    }
}

/// The infix half of the specification parser: while the lookahead is an
/// operator of precedence at least `min_prec` and no diagnostic is
/// latched, consume it, parse the right operand one level higher, and
/// append the operator's opcode.
pub open spec fn st_infix(s: ParseState, min_prec: u8, fuel: nat) -> ParseState
    decreases fuel, 0int
{
    let p = spec_infix_prec(s.cur.is);
    if p < min_prec || s.err is Some {
        s
    } else if fuel == 0 {
        s
    } else {
        let t = s.cur;
        let s1 = st_parse(st_advance(s), (p + 1) as u8, (fuel - 1) as nat);
        let opc = if t.is == TokenType::Add {
            OpCode::Add
        } else if t.is == TokenType::Subtract {
            OpCode::Subtract
        } else {
            OpCode::Multiply
        };
        st_infix(st_emit(s1, opc, t), min_prec, (fuel - 1) as nat)
    }
}

/// The canonical fuel: more than the input can ever demand.
pub open spec fn st_parse_at(s: ParseState, min_prec: u8) -> ParseState {
    st_parse(s, min_prec, (s.src.len() + 1) as nat)
}

/// Above the remaining input, the fuel is irrelevant: any two sufficient
/// amounts give the same parse, the parse keeps the state sound and the
/// source fixed, and it moves the lookahead strictly forward over a
/// non-`End` token.
pub proof fn lemma_st_parse_fuel(s: ParseState, min_prec: u8, f1: nat, f2: nat)
    requires
        pstate_wf(s),
        1 <= min_prec,
        pmeasure(s) < f1,
        pmeasure(s) < f2,
    ensures
        ({
            let r = st_parse(s, min_prec, f1);
            &&& st_parse(s, min_prec, f2) == r
            &&& pstate_wf(r)
            &&& r.src == s.src
            &&& s.cur.start <= r.cur.start
            &&& (s.cur.is != TokenType::End ==> s.cur.start + s.cur.length <= r.cur.start)
        }),
    decreases f1 + f2, 1int,
{
    lemma_st_advance(s);
    let s1 = st_advance(s);
    if s1.prev.is == TokenType::Integer {
        lemma_st_infix_fuel(st_number(s1), min_prec, (f1 - 1) as nat, (f2 - 1) as nat);
    } else if s1.prev.is == TokenType::Identifier {
        let t = s1.prev;
        let text = lexeme(s1.src, t);
        let pool2 = crate::value::pool_after(s1.pool, text);
        let h = crate::value::pool_find(pool2, text) as usize;
        let k = s1.consts.len() as usize;
        let s2 = ParseState { pool: pool2, consts: s1.consts.push(Value::Str(h)), ..s1 };
        if min_prec <= 1 && s2.cur.is == TokenType::Assign {
            lemma_st_advance(s2);
            lemma_st_parse_fuel(st_advance(s2), 1, (f1 - 1) as nat, (f2 - 1) as nat);
            let s3 = st_parse(st_advance(s2), 1, (f1 - 1) as nat);
            let s4 = st_emit(st_emit(s3, OpCode::Insert(k), t), OpCode::Load(k), t);
            lemma_st_infix_fuel(s4, min_prec, (f1 - 1) as nat, (f2 - 1) as nat);
        } else {
            lemma_st_infix_fuel(st_emit(s2, OpCode::Load(k), t), min_prec, (f1 - 1) as nat, (f2 - 1) as nat);
        }
    } else if s1.prev.is == TokenType::Subtract {
        let t = s1.prev;
        lemma_st_parse_fuel(s1, 9, (f1 - 1) as nat, (f2 - 1) as nat);
        let s2 = st_parse(s1, 9, (f1 - 1) as nat);
        lemma_st_infix_fuel(st_emit(s2, OpCode::Negate, t), min_prec, (f1 - 1) as nat, (f2 - 1) as nat);
    } else if s1.prev.is == TokenType::LeftParen {
        lemma_st_parse_fuel(s1, 1, (f1 - 1) as nat, (f2 - 1) as nat);
        let s2 = st_parse(s1, 1, (f1 - 1) as nat);
        let s3 = if s2.cur.is == TokenType::RightParen {
            lemma_st_advance(s2);
            st_advance(s2)
        } else {
            ParseState {
                err: latch(s2.err, DiagKind::ExpectedRightParen, s2.cur.row, s2.cur.column),
                ..s2
            }
        };
        lemma_st_infix_fuel(s3, min_prec, (f1 - 1) as nat, (f2 - 1) as nat);
    } else {
    }
}

/// The companion of `lemma_st_parse_fuel` for the infix half.
pub proof fn lemma_st_infix_fuel(s: ParseState, min_prec: u8, f1: nat, f2: nat)
    requires
        pstate_wf(s),
        1 <= min_prec,
        pmeasure(s) < f1,
        pmeasure(s) < f2,
    ensures
        ({
            let r = st_infix(s, min_prec, f1);
            &&& st_infix(s, min_prec, f2) == r
            &&& pstate_wf(r)
            &&& r.src == s.src
            &&& s.cur.start <= r.cur.start
        }),
    decreases f1 + f2, 0int,
{
    let p = spec_infix_prec(s.cur.is);
    if p < min_prec || s.err is Some {
    } else {
        lemma_st_advance(s);
        let t = s.cur;
        lemma_st_parse_fuel(st_advance(s), (p + 1) as u8, (f1 - 1) as nat, (f2 - 1) as nat);
        let s1 = st_parse(st_advance(s), (p + 1) as u8, (f1 - 1) as nat);
        let opc = if t.is == TokenType::Add {
            OpCode::Add
        } else if t.is == TokenType::Subtract {
            OpCode::Subtract
        } else {
            OpCode::Multiply
        };
        lemma_st_infix_fuel(st_emit(s1, opc, t), min_prec, (f1 - 1) as nat, (f2 - 1) as nat);
    }
}


/// Skip a run of semicolons between statements.
pub open spec fn st_skip_semis(s: ParseState) -> ParseState
    decreases pmeasure(s)
        when pstate_wf(s) via st_skip_semis_decreases
{
    if s.cur.is == TokenType::Semicolon {
        st_skip_semis(st_advance(s))
    } else {
        s
    }
}

#[via_fn]
proof fn st_skip_semis_decreases(s: ParseState) {
    lemma_st_advance(s);
}

/// `st_skip_semis` keeps the state sound, the source fixed, and never
/// moves the lookahead backwards; afterwards it is no semicolon.
pub proof fn lemma_st_skip_semis(s: ParseState)
    requires
        pstate_wf(s),
    ensures
        ({
            let r = st_skip_semis(s);
            &&& pstate_wf(r)
            &&& r.src == s.src
            &&& s.cur.start <= r.cur.start
            &&& r.cur.is != TokenType::Semicolon
        }),
    decreases pmeasure(s),
{
    if s.cur.is == TokenType::Semicolon {
        lemma_st_advance(s);
        lemma_st_skip_semis(st_advance(s));
    }
}

/// The specification of the statement sequence: parse one expression; stop
/// at the first diagnostic or at the end of the input; between statements,
/// consume the separating semicolons and discard the finished statement's
/// value with a `Pop`; a statement followed by anything else latches a
/// diagnostic.  As with `st_parse`, the fuel is irrelevant above the
/// remaining input and `st_stmts_at` fixes the canonical amount.
pub open spec fn st_stmts(s: ParseState, fuel: nat) -> ParseState
    decreases fuel,
{
    if fuel == 0 {
        s
    } else {
        let s1 = st_parse_at(s, 1);
        if s1.err is Some {
            s1
        } else if s1.cur.is == TokenType::Semicolon {
            let s2 = st_skip_semis(s1);
            if s2.err is Some {
                s2
            } else if s2.cur.is == TokenType::End {
                s2
            } else {
                st_stmts(st_emit(s2, OpCode::Pop, s2.prev), (fuel - 1) as nat)
            }
        } else if s1.cur.is == TokenType::End {
            s1
        } else {
            ParseState {
                err: latch(s1.err, DiagKind::ExpectedSemicolon, s1.cur.row, s1.cur.column),
                ..s1
            }
        }
    }
}

/// The canonical fuel for the statement sequence.
pub open spec fn st_stmts_at(s: ParseState) -> ParseState {
    st_stmts(s, (s.src.len() + 1) as nat)
}

/// Fuel irrelevance and soundness for the statement sequence.
pub proof fn lemma_st_stmts_fuel(s: ParseState, f1: nat, f2: nat)
    requires
        pstate_wf(s),
        pmeasure(s) < f1,
        pmeasure(s) < f2,
    ensures
        ({
            let r = st_stmts(s, f1);
            &&& st_stmts(s, f2) == r
            &&& pstate_wf(r)
            &&& r.src == s.src
        }),
    decreases f1 + f2,
{
    let big = (s.src.len() + 1) as nat;
    lemma_st_parse_fuel(s, 1, big, big);
    let s1 = st_parse_at(s, 1);
    if s1.err is Some {
    } else if s1.cur.is == TokenType::Semicolon {
        lemma_st_skip_semis(s1);
        let s2 = st_skip_semis(s1);
        if s2.err is Some {
        } else if s2.cur.is == TokenType::End {
        } else {
            assert(s.cur.is != TokenType::End);
            let s3 = st_emit(s2, OpCode::Pop, s2.prev);
            assert(pmeasure(s3) < pmeasure(s));
            lemma_st_stmts_fuel(s3, (f1 - 1) as nat, (f2 - 1) as nat);
        }
    } else {
    }
}

/// The state a compilation starts from: the source loaded, the chunk and
/// the diagnostic empty, the first token already lexed (latching a
/// diagnostic if it is an `Error` token), over the session's pool.
pub open spec fn st_prime(src: Seq<char>, pool: Seq<Seq<char>>) -> ParseState {
    let o = next_token_spec(src, LexState { pos: 0, row: 1, col: 0 });
    let t = tok_of(o.tok);
    ParseState {
        src,
        lex: o.next,
        prev: Token { is: TokenType::End, row: 0, column: 0, start: 0, length: 0 },
        cur: t,
        err: if t.is == TokenType::Error {
            Some(Diagnostic { kind: DiagKind::UnexpectedCharacter, row: t.row, column: t.column })
        } else {
            None
        },
        code: Seq::empty(),
        consts: Seq::empty(),
        lines: Seq::empty(),
        pool,
    }
}

/// The primed state is sound.
pub proof fn lemma_st_prime(src: Seq<char>, pool: Seq<Seq<char>>)
    requires
        src.len() < usize::MAX,
    ensures
        pstate_wf(st_prime(src, pool)),
{
    lemma_next_token_spec_bounds(src, LexState { pos: 0, row: 1, col: 0 });
}

/// The whole compilation, as a function of the source and the session's
/// intern pool: prime, parse the statement sequence unless the input is
/// already exhausted, and append the final `End`.  The resulting state
/// holds the chunk, the grown pool, and the first diagnostic if one was
/// latched; `compile` is proved to return exactly this.
pub open spec fn st_compile(src: Seq<char>, pool: Seq<Seq<char>>) -> ParseState {
    let s0 = st_prime(src, pool);
    let s1 = if s0.cur.is == TokenType::End {
        s0
    } else {
        st_stmts_at(s0)
    };
    st_emit(s1, OpCode::End, s1.cur)
}

/// The executable compiler state and pool, as the model sees them.
pub open spec fn abs_state(cm: Compiler, pool: Seq<Seq<char>>) -> ParseState {
    ParseState {
        src: cm.source@,
        lex: cm.lex_state(),
        prev: cm.previous,
        cur: cm.current,
        err: cm.error,
        code: cm.chunk.code@,
        consts: cm.chunk.constants@,
        lines: cm.chunk.lines@,
        pool,
    }
}

/// One executable `advance` step produces exactly `st_advance` of the
/// model state, for any pool (it never touches the pool).  The
/// hypotheses are `advance`'s postconditions.
pub proof fn lemma_advance_step(a: Compiler, b: Compiler, pool: Seq<Seq<char>>)
    requires
        b.source@ == a.source@,
        b.chunk == a.chunk,
        b.previous == a.current,
        a.current.is == TokenType::End ==> b.current == a.current && b.error == a.error
            && b.lex_state() == a.lex_state(),
        a.current.is != TokenType::End ==> ({
            let o = next_token_spec(a.source@, a.lex_state());
            &&& tok_matches(b.current, o.tok)
            &&& b.lex_state() == o.next
            &&& (o.tok.kind != TokenType::Error ==> b.error == a.error)
            &&& (o.tok.kind == TokenType::Error && a.error is Some ==> b.error == a.error)
            &&& (o.tok.kind == TokenType::Error && a.error is None ==> b.error == Some(
                Diagnostic {
                    kind: DiagKind::UnexpectedCharacter,
                    row: o.tok.row as usize,
                    column: o.tok.col as usize,
                },
            ))
        }),
    ensures
        abs_state(b, pool) == st_advance(abs_state(a, pool)),
{
    if a.current.is != TokenType::End {
        let o = next_token_spec(a.source@, a.lex_state());
        assert(b.current == tok_of(o.tok));
    }
}

/// The parser's running well-formedness: the cursor is sound, the current
/// lookahead token is consistent with the source and already consumed, and
/// the chunk built so far is well-formed.
pub open spec fn parse_ok(cm: Compiler) -> bool {
    &&& cm.lex_wf()
    &&& token_wf(cm.current, cm.source@)
    &&& cm.current.start + cm.current.length <= cm.pos
    &&& cm.chunk.wf()
}

/// Copy `src[start .. start + length]` into a fresh vector.
fn copy_range(src: &Vec<char>, start: usize, length: usize) -> (r: Vec<char>)
    requires
        start + length <= src@.len(),
    ensures
        r@ == src@.subrange(start as int, start + length),
{
    let n = src.len();
    let mut r: Vec<char> = Vec::new();
    let mut i: usize = 0;
    while i < length
        invariant
            n == src@.len(),
            start + length <= src@.len(),
            0 <= i <= length,
            r@ == src@.subrange(start as int, start + i),
        decreases length - i,
    {
        r.push(src[start + i]);
        proof {
            assert(r@ =~= src@.subrange(start as int, start + i + 1));
        }
        i += 1;
    }
    r
}

/// Compile the integer literal held in `previous`: append its value to
/// the constant pool and emit a `Push` of it.  A literal whose value does
/// not fit in a signed 64-bit integer latches a diagnostic at the literal.
fn number(cm: &mut Compiler)
    requires
        old(cm).lex_wf(),
        old(cm).previous.is == TokenType::Integer,
        token_wf(old(cm).previous, old(cm).source@),
        old(cm).chunk.wf(),
    ensures
        final(cm).lex_wf(),
        final(cm).source@ == old(cm).source@,
        final(cm).pos == old(cm).pos && final(cm).row == old(cm).row && final(cm).column == old(cm).column,
        final(cm).previous == old(cm).previous && final(cm).current == old(cm).current,
        final(cm).chunk.wf(),
        seq_extends(old(cm).chunk.code@, final(cm).chunk.code@),
        seq_extends(old(cm).chunk.constants@, final(cm).chunk.constants@),
        old(cm).error is Some ==> final(cm).error == old(cm).error,
        ({
            let t = old(cm).previous;
            let v = digits_val(old(cm).source@, t.start as int, t.start + t.length);
            if v <= i64::MAX {
                &&& final(cm).chunk.code@ == old(cm).chunk.code@.push(
                    OpCode::Push(old(cm).chunk.constants@.len() as usize),
                )
                &&& final(cm).chunk.constants@ == old(cm).chunk.constants@.push(
                    Value::Integer(v as i64),
                )
                &&& final(cm).chunk.lines@ == old(cm).chunk.lines@.push(
                    Pos { row: t.row, column: t.column },
                )
                &&& final(cm).error == old(cm).error
            } else {
                &&& final(cm).chunk == old(cm).chunk
                &&& (old(cm).error is None ==> final(cm).error == Some(
                    Diagnostic { kind: DiagKind::IntegerTooLarge, row: t.row, column: t.column },
                ))
            }
        }),
{
    let t = cm.previous;
    let ghost src = cm.source@;
    let end = t.start + t.length;
    let mut acc: i64 = 0;
    let mut i: usize = t.start;
    proof {
        lemma_digits_val_nonneg(src, t.start as int, t.start as int);
    }
    loop
        invariant
            t == cm.previous,
            token_wf(t, src),
            t.is == TokenType::Integer,
            src == cm.source@,
            end == t.start + t.length,
            t.start <= i <= end,
            acc == digits_val(src, t.start as int, i as int),
            acc >= 0,
            *cm == *old(cm),
        ensures
            *cm == *old(cm),
            t.start <= i <= end,
            acc == digits_val(src, t.start as int, i as int),
            acc >= 0,
            i == end || digits_val(src, t.start as int, end as int) > i64::MAX,
            i == end ==> acc == digits_val(src, t.start as int, end as int),
        decreases end - i,
    {
        if i >= end {
            break;
        }
        let c = cm.source[i];
        proof {
            assert(is_digit(src[i as int]));
        }
        let d = ((c as u32) - 48) as i64;
        proof {
            assert(d == digit_of(src[i as int]));
            assert(0 <= d <= 9);
        }
        let stepped = match acc.checked_mul(10) {
            Some(m) => m.checked_add(d),
            None => None,
        };
        match stepped {
            Some(s) => {
                acc = s;
                proof {
                    assert(acc == digits_val(src, t.start as int, i + 1));
                }
                i += 1;
            },
            None => {
                proof {
                    assert(10 * acc + d > i64::MAX);
                    assert(digits_val(src, t.start as int, i + 1) == 10 * acc + d);
                    lemma_digits_val_grows(src, t.start as int, i + 1, end as int);
                }
                break;
            },
        }
    }
    if i < end {
        // the literal's value does not fit
        if cm.error.is_none() {
            cm.error = Some(
                Diagnostic { kind: DiagKind::IntegerTooLarge, row: t.row, column: t.column },
            );
        }
        return ;
    }
    let k = cm.chunk.add_constant(Value::Integer(acc));
    cm.chunk.emit(OpCode::Push(k), Pos { row: t.row, column: t.column });
}

/// Parse one expression whose operators all bind at least as tightly as
/// `min_prec`, emitting its code; on bad input, latch the first
/// diagnostic.  The state and pool produced are exactly those of the
/// specification parser `st_parse_at`; in addition, the chunk and the
/// intern pool only grow, an earlier diagnostic is never replaced, and
/// the lookahead always moves forward over a non-`End` token.
#[verifier::rlimit(100)]
pub fn parse_precedence(cm: &mut Compiler, strings: &mut Interner, min_prec: u8)
    requires
        parse_ok(*old(cm)),
        1 <= min_prec,
    ensures
        parse_ok(*final(cm)),
        final(cm).source@ == old(cm).source@,
        seq_extends(old(cm).chunk.code@, final(cm).chunk.code@),
        seq_extends(old(cm).chunk.constants@, final(cm).chunk.constants@),
        seq_extends(old(strings)@, final(strings)@),
        old(cm).error is Some ==> final(cm).error == old(cm).error,
        old(cm).current.start <= final(cm).current.start,
        old(cm).current.is != TokenType::End ==> old(cm).current.start < final(cm).current.start,
        abs_state(*final(cm), final(strings)@) == st_parse_at(
            abs_state(*old(cm), old(strings)@),
            min_prec,
        ),
    decreases cm.source@.len() - cm.current.start,
{
    let ghost m0 = abs_state(*cm, strings@);
    let ghost flen = m0.src.len() as nat;
    proof {
        assert(pstate_wf(m0));
        assert(((flen + 1) as nat - 1) as nat == flen);
    }
    let ghost pre0 = *cm;
    advance(cm);
    proof {
        lemma_advance_step(pre0, *cm, strings@);
        lemma_st_advance(m0);
    }
    let ghost m1 = st_advance(m0);
    match cm.previous.is {
        TokenType::Integer => {
            number(cm);
            proof {
                assert(abs_state(*cm, strings@) == st_number(m1));
                assert(pstate_wf(st_number(m1)));
                lemma_st_infix_fuel(st_number(m1), min_prec, flen, (flen + 1) as nat);
                assert(st_parse_at(m0, min_prec) == st_infix(
                    abs_state(*cm, strings@),
                    min_prec,
                    (flen + 1) as nat,
                ));
            }
        },
        TokenType::Identifier => {
            let t = cm.previous;
            let name = copy_range(&cm.source, t.start, t.length);
            let h = strings.intern(name);
            let k = cm.chunk.add_constant(Value::Str(h));
            let ghost text = lexeme(m1.src, m1.prev);
            let ghost pool2 = crate::value::pool_after(m1.pool, text);
            let ghost s2m = ParseState {
                pool: pool2,
                consts: m1.consts.push(
                    Value::Str(crate::value::pool_find(pool2, text) as usize),
                ),
                ..m1
            };
            proof {
                assert(h == crate::value::pool_find(pool2, text));
                assert(abs_state(*cm, strings@) == s2m);
                assert(pstate_wf(s2m));
            }
            if min_prec <= prec_value(Precedence::Assign) && matches!(
                cm.current.is,
                TokenType::Assign,
            ) {
                let ghost pre1 = *cm;
                advance(cm);
                proof {
                    lemma_advance_step(pre1, *cm, strings@);
                    lemma_st_advance(s2m);
                }
                parse_precedence(cm, strings, prec_value(Precedence::Assign));
                proof {
                    lemma_st_parse_fuel(st_advance(s2m), 1, flen, (flen + 1) as nat);
                }
                let ghost s3m = st_parse(st_advance(s2m), 1, flen);
                proof {
                    assert(abs_state(*cm, strings@) == s3m);
                    assert(cm.chunk.constants@[k as int] == Value::Str(h));
                }
                cm.chunk.emit(OpCode::Insert(k), Pos { row: t.row, column: t.column });
                cm.chunk.emit(OpCode::Load(k), Pos { row: t.row, column: t.column });
                proof {
                    let s4m = st_emit(
                        st_emit(s3m, OpCode::Insert(k as usize), m1.prev),
                        OpCode::Load(k as usize),
                        m1.prev,
                    );
                    assert(abs_state(*cm, strings@) == s4m);
                    assert(pstate_wf(s4m));
                    lemma_st_infix_fuel(s4m, min_prec, flen, (flen + 1) as nat);
                    assert(st_parse_at(m0, min_prec) == st_infix(
                        abs_state(*cm, strings@),
                        min_prec,
                        (flen + 1) as nat,
                    ));
                }
            } else {
                cm.chunk.emit(OpCode::Load(k), Pos { row: t.row, column: t.column });
                proof {
                    let s3m = st_emit(s2m, OpCode::Load(k as usize), m1.prev);
                    assert(abs_state(*cm, strings@) == s3m);
                    assert(pstate_wf(s3m));
                    lemma_st_infix_fuel(s3m, min_prec, flen, (flen + 1) as nat);
                    assert(st_parse_at(m0, min_prec) == st_infix(
                        abs_state(*cm, strings@),
                        min_prec,
                        (flen + 1) as nat,
                    ));
                }
            }
        },
        TokenType::Subtract => {
            let t = cm.previous;
            parse_precedence(cm, strings, prec_value(Precedence::Unary));
            proof {
                lemma_st_parse_fuel(m1, 9, flen, (flen + 1) as nat);
            }
            let ghost s2m = st_parse(m1, 9, flen);
            proof {
                assert(abs_state(*cm, strings@) == s2m);
            }
            cm.chunk.emit(OpCode::Negate, Pos { row: t.row, column: t.column });
            proof {
                let s3m = st_emit(s2m, OpCode::Negate, m1.prev);
                assert(abs_state(*cm, strings@) == s3m);
                assert(pstate_wf(s3m));
                lemma_st_infix_fuel(s3m, min_prec, flen, (flen + 1) as nat);
                assert(st_parse_at(m0, min_prec) == st_infix(
                    abs_state(*cm, strings@),
                    min_prec,
                    (flen + 1) as nat,
                ));
            }
        },
        TokenType::LeftParen => {
            parse_precedence(cm, strings, prec_value(Precedence::Assign));
            proof {
                lemma_st_parse_fuel(m1, 1, flen, (flen + 1) as nat);
            }
            let ghost s2m = st_parse(m1, 1, flen);
            proof {
                assert(abs_state(*cm, strings@) == s2m);
            }
            if matches!(cm.current.is, TokenType::RightParen) {
                let ghost pre2 = *cm;
                advance(cm);
                proof {
                    lemma_advance_step(pre2, *cm, strings@);
                    lemma_st_advance(s2m);
                }
            } else {
                if cm.error.is_none() {
                    cm.error = Some(
                        Diagnostic {
                            kind: DiagKind::ExpectedRightParen,
                            row: cm.current.row,
                            column: cm.current.column,
                        },
                    );
                }
            }
            proof {
                let s3m = if s2m.cur.is == TokenType::RightParen {
                    st_advance(s2m)
                } else {
                    ParseState {
                        err: latch(
                            s2m.err,
                            DiagKind::ExpectedRightParen,
                            s2m.cur.row,
                            s2m.cur.column,
                        ),
                        ..s2m
                    }
                };
                assert(abs_state(*cm, strings@) == s3m);
                assert(pstate_wf(s3m));
                lemma_st_infix_fuel(s3m, min_prec, flen, (flen + 1) as nat);
                assert(st_parse_at(m0, min_prec) == st_infix(
                    abs_state(*cm, strings@),
                    min_prec,
                    (flen + 1) as nat,
                ));
            }
        },
        _ => {
            // includes `End` and `Error`: no token that can begin an
            // expression stood where one was required
            if cm.error.is_none() {
                cm.error = Some(
                    Diagnostic {
                        kind: DiagKind::ExpectedExpression,
                        row: cm.previous.row,
                        column: cm.previous.column,
                    },
                );
            }
            proof {
                assert(abs_state(*cm, strings@) == (ParseState {
                    err: latch(
                        m1.err,
                        DiagKind::ExpectedExpression,
                        m1.prev.row,
                        m1.prev.column,
                    ),
                    ..m1
                }));
                assert(st_parse_at(m0, min_prec) == abs_state(*cm, strings@));
            }
            return ;
        },
    }
    loop
        invariant
            1 <= min_prec,
            parse_ok(*cm),
            cm.source@ == old(cm).source@,
            seq_extends(old(cm).chunk.code@, cm.chunk.code@),
            seq_extends(old(cm).chunk.constants@, cm.chunk.constants@),
            seq_extends(old(strings)@, strings@),
            old(cm).error is Some ==> cm.error == old(cm).error,
            old(cm).current.start < cm.current.start,
            m0 == abs_state(*old(cm), old(strings)@),
            flen == m0.src.len(),
            st_parse_at(m0, min_prec) == st_infix(
                abs_state(*cm, strings@),
                min_prec,
                (flen + 1) as nat,
            ),
        ensures
            parse_ok(*cm),
            st_parse_at(m0, min_prec) == st_infix(
                abs_state(*cm, strings@),
                min_prec,
                (flen + 1) as nat,
            ),
            spec_infix_prec(cm.current.is) < min_prec || cm.error is Some,
        decreases cm.source@.len() - cm.current.start,
    {
        let p = infix_prec(cm.current.is);
        if p < min_prec {
            break;
        }
        if cm.error.is_some() {
            break;
        }
        let op = cm.current.is;
        let t = cm.current;
        let ghost mloop = abs_state(*cm, strings@);
        proof {
            assert(pstate_wf(mloop));
            assert(((flen + 1) as nat - 1) as nat == flen);
        }
        let ghost pre3 = *cm;
        advance(cm);
        proof {
            lemma_advance_step(pre3, *cm, strings@);
            lemma_st_advance(mloop);
        }
        parse_precedence(cm, strings, p + 1);
        proof {
            lemma_st_parse_fuel(st_advance(mloop), (p + 1) as u8, flen, (flen + 1) as nat);
        }
        let ghost s1m = st_parse(st_advance(mloop), (p + 1) as u8, flen);
        proof {
            assert(abs_state(*cm, strings@) == s1m);
        }
        let opc = match op {
            TokenType::Add => OpCode::Add,
            TokenType::Subtract => OpCode::Subtract,
            _ => OpCode::Multiply,
        };
        cm.chunk.emit(opc, Pos { row: t.row, column: t.column });
        proof {
            let s2m = st_emit(s1m, opc, mloop.cur);
            assert(abs_state(*cm, strings@) == s2m);
            assert(pstate_wf(s2m));
            assert(st_infix(mloop, min_prec, (flen + 1) as nat) == st_infix(
                s2m,
                min_prec,
                flen,
            ));
            lemma_st_infix_fuel(s2m, min_prec, flen, (flen + 1) as nat);
        }
    }
    proof {
        assert(st_infix(abs_state(*cm, strings@), min_prec, (flen + 1) as nat) == abs_state(
            *cm,
            strings@,
        ));
    }
}

/// A source text that holds only whitespace and comments: skipping them
/// from the start of the text reaches its end.
pub open spec fn blank_source(src: Seq<char>) -> bool {
    blank_skip(src).pos >= src.len()
}

/// Compile source text to a bytecode chunk.  The program is a sequence of
/// expression statements separated by `;`; the value of every statement
/// but the last is discarded by an emitted `Pop`.  The chunk, the grown
/// intern pool and the first latched diagnostic are exactly those of the
/// specification compiler `st_compile` -- compilation is a pure function
/// of the source and the session's pool.  On success the chunk is
/// well-formed and ends in `End`; a source of nothing but whitespace and
/// comments compiles to exactly one `End` instruction.  On bad input the
/// first diagnostic is returned and nothing of the chunk is to be
/// executed.  The session's globals and stack are untouched.
#[verifier::rlimit(100)]
pub fn compile(vm: &mut Hymn, source: &str) -> (r: Result<Chunk, Diagnostic>)
    requires
        source@.len() < usize::MAX,
    ensures
        final(vm).globals@ == old(vm).globals@,
        final(vm).stack@ == old(vm).stack@,
        seq_extends(old(vm).strings@, final(vm).strings@),
        r matches Ok(c) ==> c.wf() && c.code@.len() >= 1 && c.code@[c.code@.len() - 1]
            == OpCode::End,
        blank_source(source@) ==> (r matches Ok(c) && c.code@ == seq![OpCode::End]),
        ({
            let m = st_compile(source@, old(vm).strings@);
            &&& final(vm).strings@ == m.pool
            &&& (m.err matches Some(d) ==> r == Err::<Chunk, Diagnostic>(d))
            &&& (m.err is None ==> (r matches Ok(c) && c.code@ == m.code && c.constants@
                == m.consts && c.lines@ == m.lines))
        }),
{
    let ghost pool0 = vm.strings@;
    let mut cm = Compiler::new();
    let n = source.unicode_len();
    let mut buf: Vec<char> = Vec::new();
    let mut i: usize = 0;
    while i < n
        invariant
            n == source@.len(),
            0 <= i <= n,
            buf@ == source@.subrange(0, i as int),
        decreases n - i,
    {
        buf.push(source.get_char(i));
        proof {
            assert(buf@ =~= source@.subrange(0, i + 1));
        }
        i += 1;
    }
    proof {
        assert(buf@ =~= source@);
    }
    cm.source = buf;
    let ghost s0 = st_prime(source@, pool0);
    let ghost flen = source@.len() as nat;
    let t = next_token(&mut cm);
    if matches!(t.is, TokenType::Error) {
        cm.error = Some(
            Diagnostic { kind: DiagKind::UnexpectedCharacter, row: t.row, column: t.column },
        );
    }
    cm.current = t;
    proof {
        assert(t == tok_of(next_token_spec(source@, LexState { pos: 0, row: 1, col: 0 }).tok));
        assert(abs_state(cm, vm.strings@) == s0);
        lemma_st_prime(source@, pool0);
    }
    if matches!(cm.current.is, TokenType::End) {
        let pos = Pos { row: cm.current.row, column: cm.current.column };
        cm.chunk.emit(OpCode::End, pos);
        proof {
            assert(cm.chunk.code@ =~= seq![OpCode::End]);
            assert(st_compile(source@, pool0) == st_emit(s0, OpCode::End, s0.cur));
            assert(cm.chunk.code@ == st_compile(source@, pool0).code);
            assert(cm.chunk.constants@ =~= st_compile(source@, pool0).consts);
            assert(cm.chunk.lines@ =~= st_compile(source@, pool0).lines);
        }
        return Ok(cm.chunk);
    }
    proof {
        assert(!blank_source(source@));
        assert(((flen + 1) as nat - 1) as nat == flen);
    }
    loop
        invariant_except_break
            cm.current.is != TokenType::End,
            st_stmts_at(s0) == st_stmts(abs_state(cm, vm.strings@), (flen + 1) as nat),
        invariant
            parse_ok(cm),
            cm.source@ == source@,
            seq_extends(old(vm).strings@, vm.strings@),
            vm.globals@ == old(vm).globals@,
            vm.stack@ == old(vm).stack@,
            pool0 == old(vm).strings@,
            flen == source@.len(),
        ensures
            parse_ok(cm),
            seq_extends(old(vm).strings@, vm.strings@),
            vm.globals@ == old(vm).globals@,
            vm.stack@ == old(vm).stack@,
            st_stmts_at(s0) == abs_state(cm, vm.strings@),
        decreases cm.source@.len() - cm.current.start,
    {
        let ghost m_entry = abs_state(cm, vm.strings@);
        proof {
            assert(pstate_wf(m_entry));
            assert(((flen + 1) as nat - 1) as nat == flen);
        }
        parse_precedence(&mut cm, &mut vm.strings, prec_value(Precedence::Assign));
        proof {
            assert(abs_state(cm, vm.strings@) == st_parse_at(m_entry, 1));
            lemma_st_parse_fuel(m_entry, 1, (flen + 1) as nat, (flen + 1) as nat);
        }
        if cm.error.is_some() {
            proof {
                assert(st_stmts(m_entry, (flen + 1) as nat) == abs_state(cm, vm.strings@));
            }
            break;
        }
        if matches!(cm.current.is, TokenType::Semicolon) {
            let ghost m_semi = abs_state(cm, vm.strings@);
            let ghost mid_start = cm.current.start;
            loop
                invariant
                    parse_ok(cm),
                    cm.source@ == source@,
                    mid_start <= cm.current.start,
                    vm.globals@ == old(vm).globals@,
                    vm.stack@ == old(vm).stack@,
                    seq_extends(old(vm).strings@, vm.strings@),
                    st_skip_semis(m_semi) == st_skip_semis(abs_state(cm, vm.strings@)),
                ensures
                    parse_ok(cm),
                    cm.source@ == source@,
                    mid_start <= cm.current.start,
                    vm.globals@ == old(vm).globals@,
                    vm.stack@ == old(vm).stack@,
                    seq_extends(old(vm).strings@, vm.strings@),
                    st_skip_semis(m_semi) == abs_state(cm, vm.strings@),
                    !(cm.current.is == TokenType::Semicolon),
                decreases cm.source@.len() - cm.current.start,
            {
                if !matches!(cm.current.is, TokenType::Semicolon) {
                    proof {
                        assert(st_skip_semis(abs_state(cm, vm.strings@)) == abs_state(
                            cm,
                            vm.strings@,
                        ));
                    }
                    break;
                }
                let ghost pre = cm;
                advance(&mut cm);
                proof {
                    lemma_advance_step(pre, cm, vm.strings@);
                    assert(pstate_wf(abs_state(pre, vm.strings@)));
                }
            }
            if cm.error.is_some() {
                proof {
                    assert(st_stmts(m_entry, (flen + 1) as nat) == abs_state(cm, vm.strings@));
                }
                break;
            }
            if matches!(cm.current.is, TokenType::End) {
                proof {
                    assert(st_stmts(m_entry, (flen + 1) as nat) == abs_state(cm, vm.strings@));
                }
                break;
            }
            let ghost m2 = abs_state(cm, vm.strings@);
            cm.chunk.emit(OpCode::Pop, Pos { row: cm.previous.row, column: cm.previous.column });
            proof {
                assert(abs_state(cm, vm.strings@) == st_emit(m2, OpCode::Pop, m2.prev));
                assert(pstate_wf(abs_state(cm, vm.strings@)));
                assert(pmeasure(abs_state(cm, vm.strings@)) < pmeasure(m_entry));
                lemma_st_stmts_fuel(abs_state(cm, vm.strings@), flen, (flen + 1) as nat);
                assert(st_stmts(m_entry, (flen + 1) as nat) == st_stmts(
                    abs_state(cm, vm.strings@),
                    (flen + 1) as nat,
                ));
            }
        } else if matches!(cm.current.is, TokenType::End) {
            proof {
                assert(st_stmts(m_entry, (flen + 1) as nat) == abs_state(cm, vm.strings@));
            }
            break;
        } else {
            if cm.error.is_none() {
                cm.error = Some(
                    Diagnostic {
                        kind: DiagKind::ExpectedSemicolon,
                        row: cm.current.row,
                        column: cm.current.column,
                    },
                );
            }
            proof {
                assert(st_stmts(m_entry, (flen + 1) as nat) == abs_state(cm, vm.strings@));
            }
            break;
        }
    }
    let ghost m1 = abs_state(cm, vm.strings@);
    let pos = Pos { row: cm.current.row, column: cm.current.column };
    cm.chunk.emit(OpCode::End, pos);
    proof {
        assert(abs_state(cm, vm.strings@) == st_emit(m1, OpCode::End, m1.cur));
        assert(st_compile(source@, pool0) == st_emit(m1, OpCode::End, m1.cur));
    }
    match cm.error {
        Some(d) => Err(d),
        None => Ok(cm.chunk),
    }
}

/// The run's outcome, reported: a halt becomes `Ok`, a fault becomes a
/// `Runtime` error carrying the faulting instruction's debug position,
/// and the session ends in the state the run left behind.
pub open spec fn run_reported(
    run: RunOutcome,
    r: Result<(), InterpretError>,
    lines: Seq<Pos>,
    stack1: Seq<Value>,
    globals1: Map<usize, Value>,
) -> bool {
    match run {
        RunOutcome::Halt { state } => r is Ok && stack1 == state.stack && globals1
            == state.globals,
        RunOutcome::Fault { kind, at, state } => {
            &&& r matches Err(e) && e matches InterpretError::Runtime(f) && fault_reported(
                f,
                kind,
                at,
                lines,
            )
            &&& stack1 == state.stack
            &&& globals1 == state.globals
        },
    }
}

/// Compile source text and, on success, execute it in this session.  The
/// whole behaviour is fixed by the two specification functions: the
/// compile result is `st_compile` of the source and the session's pool,
/// and on a clean compile the run's outcome, the final stack and the
/// final globals are `spec_run` of the compiled chunk from the session's
/// current state.  A compile error is returned as it stands and leaves
/// the session's globals and stack untouched: no instruction of a failed
/// compile is ever executed.
pub fn interpret(vm: &mut Hymn, source: &str) -> (r: Result<(), InterpretError>)
    requires
        source@.len() < usize::MAX,
    ensures
        seq_extends(old(vm).strings@, final(vm).strings@),
        ({
            let m = st_compile(source@, old(vm).strings@);
            let run = spec_run(
                m.code,
                m.consts,
                0,
                MachineState { stack: old(vm).stack@, globals: old(vm).globals@ }
            );
            &&& final(vm).strings@ == m.pool
            &&& (m.err matches Some(d) ==> ({
                &&& (r matches Err(e) && e == InterpretError::Compile(d))
                &&& final(vm).globals@ == old(vm).globals@
                &&& final(vm).stack@ == old(vm).stack@
            }))
            &&& (m.err is None ==> run_reported(run, r, m.lines, final(vm).stack@, final(vm).globals@))
        }),
{
    let chunk = match compile(vm, source) {
        Ok(c) => c,
        Err(d) => {
            return Err(InterpretError::Compile(d));
        },
    };
    match vm.execute(&chunk) {
        Ok(()) => Ok(()),
        Err(f) => Err(InterpretError::Runtime(f)),
    }
}

} // verus!
