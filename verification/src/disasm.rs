//! A human-readable listing of a chunk: its instructions with their source
//! positions, and its constant pool.  Compiling-then-disassembling is the
//! debugging entry point; nothing here executes any instruction.

use crate::chunk::{Chunk, OpCode, Pos};
use crate::value::Value;
use crate::diag::Diagnostic;
use crate::value::seq_extends;
use crate::vm::Hymn;
use vstd::prelude::*;
use vstd::string::StringExecFns;

verus! {

/// The character for one decimal digit value.
pub open spec fn digit_char(d: int) -> char {
    if d == 0 {
        '0'
    } else if d == 1 {
        '1'
    } else if d == 2 {
        '2'
    } else if d == 3 {
        '3'
    } else if d == 4 {
        '4'
    } else if d == 5 {
        '5'
    } else if d == 6 {
        '6'
    } else if d == 7 {
        '7'
    } else if d == 8 {
        '8'
    } else {
        '9'
    }
}

/// The decimal numeral of a non-negative number, most significant digit
/// first.
pub open spec fn dec_digits(n: int) -> Seq<char>
    decreases n
        when n >= 0
{
    if n < 10 {
        seq![digit_char(n)]
    } else {
        dec_digits(n / 10).push(digit_char(n % 10))
    }
}

/// Append the character of one digit value to a string.
fn push_digit(s: &mut String, d: u64)
    requires
        d < 10,
    ensures
        final(s)@ == old(s)@.push(digit_char(d as int)),
{
    let piece: &str = if d == 0 {
        "0"
    } else if d == 1 {
        "1"
    } else if d == 2 {
        "2"
    } else if d == 3 {
        "3"
    } else if d == 4 {
        "4"
    } else if d == 5 {
        "5"
    } else if d == 6 {
        "6"
    } else if d == 7 {
        "7"
    } else if d == 8 {
        "8"
    } else {
        "9"
    };
    proof {
        reveal_strlit("0");
        reveal_strlit("1");
        reveal_strlit("2");
        reveal_strlit("3");
        reveal_strlit("4");
        reveal_strlit("5");
        reveal_strlit("6");
        reveal_strlit("7");
        reveal_strlit("8");
        reveal_strlit("9");
    }
    s.append(piece);
    proof {
        assert(s@ =~= old(s)@.push(digit_char(d as int)));
    }
}

/// Append the decimal numeral of `n` to a string.
pub fn push_u64(s: &mut String, n: u64)
    ensures
        final(s)@ == old(s)@ + dec_digits(n as int),
    decreases n,
{
    if n < 10 {
        push_digit(s, n);
        proof {
            assert(s@ =~= old(s)@ + dec_digits(n as int));
        }
    } else {
        push_u64(s, n / 10);
        push_digit(s, n % 10);
        proof {
            assert(s@ =~= old(s)@ + dec_digits(n as int));
        }
    }
}

/// The decimal numeral of a signed number: a minus sign and the numeral
/// of its magnitude.
pub open spec fn dec_digits_signed(v: int) -> Seq<char> {
    if v >= 0 {
        dec_digits(v)
    } else {
        seq!['-'] + dec_digits(-v)
    }
}

/// Append the decimal numeral of the signed `v` to a string.
pub fn push_i64(s: &mut String, v: i64)
    ensures
        final(s)@ == old(s)@ + dec_digits_signed(v as int),
{
    if v >= 0 {
        push_u64(s, v as u64);
    } else {
        proof {
            reveal_strlit("-");
        }
        s.append("-");
        let m: u64 = (-(v as i128)) as u64;
        proof {
            assert(m == -(v as int));
        }
        push_u64(s, m);
        proof {
            assert(s@ =~= old(s)@ + dec_digits_signed(v as int));
        }
    }
}

/// The characters of one instruction's mnemonic.
pub open spec fn name_chars(op: OpCode) -> Seq<char> {
    match op {
        OpCode::Push(_) => seq!['P', 'u', 's', 'h'],
        OpCode::Pop => seq!['P', 'o', 'p'],
        OpCode::Add => seq!['A', 'd', 'd'],
        OpCode::Subtract => seq!['S', 'u', 'b', 't', 'r', 'a', 'c', 't'],
        OpCode::Multiply => seq!['M', 'u', 'l', 't', 'i', 'p', 'l', 'y'],
        OpCode::Negate => seq!['N', 'e', 'g', 'a', 't', 'e'],
        OpCode::Insert(_) => seq!['I', 'n', 's', 'e', 'r', 't'],
        OpCode::Load(_) => seq!['L', 'o', 'a', 'd'],
        OpCode::End => seq!['E', 'n', 'd'],
    }
}

/// The rendering of an instruction's operand, where it has one.
pub open spec fn operand_chars(op: OpCode) -> Seq<char> {
    match op {
        OpCode::Push(k) => seq![' '] + dec_digits(k as int),
        OpCode::Insert(k) => seq![' '] + dec_digits(k as int),
        OpCode::Load(k) => seq![' '] + dec_digits(k as int),
        _ => Seq::empty(),
    }
}

/// The rendering of the source position attached to instruction `i`, when
/// the debug table has one.
pub open spec fn pos_chars(lines: Seq<Pos>, i: int) -> Seq<char> {
    if 0 <= i < lines.len() {
        seq![' ', ' ', '@', ' '] + dec_digits(lines[i].row as int) + seq![':'] + dec_digits(
            lines[i].column as int,
        )
    } else {
        Seq::empty()
    }
}

/// One instruction's listing line.
pub open spec fn instr_line(code: Seq<OpCode>, lines: Seq<Pos>, i: int) -> Seq<char> {
    dec_digits(i) + seq![' '] + name_chars(code[i]) + operand_chars(code[i]) + pos_chars(lines, i)
        + seq!['\n']
}

/// The listing of the first `n` instructions.
pub open spec fn code_chars(code: Seq<OpCode>, lines: Seq<Pos>, n: int) -> Seq<char>
    decreases n,
{
    if n <= 0 {
        Seq::empty()
    } else {
        code_chars(code, lines, n - 1) + instr_line(code, lines, n - 1)
    }
}

/// The rendering of one constant.
pub open spec fn value_chars(v: Value) -> Seq<char> {
    match v {
        Value::Nil => seq!['n', 'i', 'l'],
        Value::Bool(b) => if b {
            seq!['t', 'r', 'u', 'e']
        } else {
            seq!['f', 'a', 'l', 's', 'e']
        },
        Value::Integer(x) => dec_digits_signed(x as int),
        Value::Str(h) => seq!['s', 't', 'r', 'i', 'n', 'g', ' ', '#'] + dec_digits(h as int),
    }
}

/// One constant's listing line.
pub open spec fn const_line(consts: Seq<Value>, k: int) -> Seq<char> {
    dec_digits(k) + seq![':', ' '] + value_chars(consts[k]) + seq!['\n']
}

/// The listing of the first `n` constants.
pub open spec fn consts_chars(consts: Seq<Value>, n: int) -> Seq<char>
    decreases n,
{
    if n <= 0 {
        Seq::empty()
    } else {
        consts_chars(consts, n - 1) + const_line(consts, n - 1)
    }
}

/// The heading of the constant-pool section.
pub open spec fn consts_heading() -> Seq<char> {
    seq!['c', 'o', 'n', 's', 't', 'a', 'n', 't', 's', ':', '\n']
}

/// The whole listing of a chunk: every instruction, the heading, every
/// constant.
pub open spec fn chunk_chars(code: Seq<OpCode>, consts: Seq<Value>, lines: Seq<Pos>) -> Seq<
    char,
> {
    code_chars(code, lines, code.len() as int) + consts_heading() + consts_chars(
        consts,
        consts.len() as int,
    )
}

/// One instruction's mnemonic./// One instruction's mnemonic.
fn opcode_name(op: OpCode) -> (r: &'static str)
    ensures
        r@ == name_chars(op),
{
    proof {
        reveal_strlit("Push");
        reveal_strlit("Pop");
        reveal_strlit("Add");
        reveal_strlit("Subtract");
        reveal_strlit("Multiply");
        reveal_strlit("Negate");
        reveal_strlit("Insert");
        reveal_strlit("Load");
        reveal_strlit("End");
    }
    match op {
        OpCode::Push(_) => "Push",
        OpCode::Pop => "Pop",
        OpCode::Add => "Add",
        OpCode::Subtract => "Subtract",
        OpCode::Multiply => "Multiply",
        OpCode::Negate => "Negate",
        OpCode::Insert(_) => "Insert",
        OpCode::Load(_) => "Load",
        OpCode::End => "End",
    }
}

/// Render a chunk: one line per instruction with its index, mnemonic,
/// operand and source position, then the constant pool.  The text is
/// exactly `chunk_chars` of the chunk's parts.
#[verifier::rlimit(100)]
pub fn disassemble(chunk: &Chunk) -> (r: String)
    ensures
        r@ == chunk_chars(chunk.code@, chunk.constants@, chunk.lines@),
        r@.len() > 0,
{
    proof {
        reveal_strlit(" ");
        reveal_strlit("  @ ");
        reveal_strlit(":");
        reveal_strlit("\n");
        reveal_strlit("constants:\n");
        reveal_strlit(": ");
        reveal_strlit("nil");
        reveal_strlit("true");
        reveal_strlit("false");
        reveal_strlit("string #");
    }
    let mut out = String::new();
    let mut i: usize = 0;
    while i < chunk.code.len()
        invariant
            i <= chunk.code@.len(),
            out@ == code_chars(chunk.code@, chunk.lines@, i as int),
        decreases chunk.code@.len() - i,
    {
        proof {
            reveal_strlit(" ");
            reveal_strlit("  @ ");
            reveal_strlit(":");
            reveal_strlit("\n");
        }
        let ghost before = out@;
        push_u64(&mut out, i as u64);
        out.append(" ");
        out.append(opcode_name(chunk.code[i]));
        match chunk.code[i] {
            OpCode::Push(k) => {
                out.append(" ");
                push_u64(&mut out, k as u64);
            },
            OpCode::Insert(k) => {
                out.append(" ");
                push_u64(&mut out, k as u64);
            },
            OpCode::Load(k) => {
                out.append(" ");
                push_u64(&mut out, k as u64);
            },
            _ => {},
        }
        proof {
            assert(out@ =~= before + dec_digits(i as int) + seq![' '] + name_chars(
                chunk.code@[i as int],
            ) + operand_chars(chunk.code@[i as int]));
        }
        if i < chunk.lines.len() {
            out.append("  @ ");
            push_u64(&mut out, chunk.lines[i].row as u64);
            out.append(":");
            push_u64(&mut out, chunk.lines[i].column as u64);
        }
        out.append("\n");
        proof {
            assert(out@ =~= before + instr_line(chunk.code@, chunk.lines@, i as int));
            assert(out@ =~= code_chars(chunk.code@, chunk.lines@, i + 1));
        }
        i += 1;
    }
    proof {
        reveal_strlit("constants:\n");
        assert("constants:\n"@ =~= consts_heading());
    }
    out.append("constants:\n");
    let ghost head = out@;
    let mut k: usize = 0;
    while k < chunk.constants.len()
        invariant
            k <= chunk.constants@.len(),
            head == code_chars(chunk.code@, chunk.lines@, chunk.code@.len() as int)
                + consts_heading(),
            out@ == head + consts_chars(chunk.constants@, k as int),
        decreases chunk.constants@.len() - k,
    {
        proof {
            reveal_strlit(": ");
            reveal_strlit("nil");
            reveal_strlit("true");
            reveal_strlit("false");
            reveal_strlit("string #");
            reveal_strlit("\n");
        }
        let ghost before = out@;
        push_u64(&mut out, k as u64);
        out.append(": ");
        match chunk.constants[k] {
            Value::Nil => {
                out.append("nil");
            },
            Value::Bool(b) => {
                if b {
                    out.append("true");
                } else {
                    out.append("false");
                }
            },
            Value::Integer(v) => {
                push_i64(&mut out, v);
            },
            Value::Str(h) => {
                out.append("string #");
                push_u64(&mut out, h as u64);
            },
        }
        out.append("\n");
        proof {
            assert(out@ =~= before + const_line(chunk.constants@, k as int));
            assert(out@ =~= head + consts_chars(chunk.constants@, k + 1));
        }
        k += 1;
    }
    proof {
        assert(out@ =~= chunk_chars(chunk.code@, chunk.constants@, chunk.lines@));
        assert(consts_heading().len() > 0);
    }
    out
}

/// Compile source text and return the disassembly of the resulting chunk
/// without executing it.  The result is fixed by the specification
/// compiler: on a clean compile, the listing of exactly the chunk
/// `st_compile` assigns; on bad input, its first latched diagnostic.  The
/// session's globals and stack are untouched either way, and the pool
/// grows exactly as compilation interns.
pub fn compile_and_disassemble(vm: &mut Hymn, source: &str) -> (r: Result<String, Diagnostic>)
    requires
        source@.len() < usize::MAX,
    ensures
        final(vm).globals@ == old(vm).globals@,
        final(vm).stack@ == old(vm).stack@,
        seq_extends(old(vm).strings@, final(vm).strings@),
        ({
            let m = crate::compiler::st_compile(source@, old(vm).strings@);
            &&& final(vm).strings@ == m.pool
            &&& (m.err matches Some(d) ==> r == Err::<String, Diagnostic>(d))
            &&& (m.err is None ==> (r matches Ok(text) && text@ == chunk_chars(
                m.code,
                m.consts,
                m.lines,
            )))
        }),
{
    match crate::compiler::compile(vm, source) {
        Ok(chunk) => Ok(disassemble(&chunk)),
        Err(d) => Err(d),
    }
}

} // verus!
