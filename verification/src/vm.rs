//! The virtual machine: a fetch-decode-execute loop over a bytecode chunk,
//! with a value stack and a session-persistent global-variable table.
//!
//! The meaning of a run is fixed by the specification function [`spec_run`]:
//! `execute` returns and mutates exactly what `spec_run` says, for every
//! chunk, including ill-formed hand-built ones (a bad operand is a runtime
//! fault, never a panic).  Integer arithmetic wraps on overflow.

use crate::chunk::{Chunk, OpCode, Pos};
use crate::diag::{FaultKind, RuntimeFault};
use crate::value::{Interner, Value};
use std::collections::HashMap;
use vstd::prelude::*;

verus! {

broadcast use vstd::std_specs::hash::group_hash_axioms;

/// The mutable machine state a run works on: the value stack (top is the
/// last element) and the global bindings, keyed by intern handle.
pub struct MachineState {
    pub stack: Seq<Value>,
    pub globals: Map<usize, Value>,
}

/// The outcome of running a chunk from some instruction pointer: either a
/// halt (an `End` instruction, or running off the end of the code) or a
/// fault at instruction `at`, each with the machine state it left behind.
pub enum RunOutcome {
    Halt { state: MachineState },
    Fault { kind: FaultKind, at: int, state: MachineState },
}

/// Signed 64-bit addition that wraps on overflow.
pub open spec fn wrap_add(a: i64, b: i64) -> i64 {
    vstd::wrapping::i64_specs::wrapping_add(a, b)
}

/// Signed 64-bit subtraction that wraps on overflow.
pub open spec fn wrap_sub(a: i64, b: i64) -> i64 {
    vstd::wrapping::i64_specs::wrapping_sub(a, b)
}

/// Signed 64-bit multiplication that wraps on overflow.
pub open spec fn wrap_mul(a: i64, b: i64) -> i64 {
    vstd::wrapping::i64_specs::wrapping_mul(a, b)
}

/// Signed 64-bit negation that wraps on overflow: the negation of the
/// minimum value is itself.
pub open spec fn wrap_neg(a: i64) -> i64 {
    if a == i64::MIN {
        i64::MIN
    } else {
        (-a) as i64
    }
}

/// The meaning of a chunk: run the instructions from `ip` onward against
/// machine state `st`.  Every instruction's stack contract is given by its
/// arm here; `execute` is proved to implement this function exactly.
pub open spec fn spec_run(code: Seq<OpCode>, consts: Seq<Value>, ip: int, st: MachineState) -> RunOutcome
    decreases code.len() - ip
        when 0 <= ip <= code.len()
{
    if ip >= code.len() {
        RunOutcome::Halt { state: st }
    } else {
        match code[ip] {
            OpCode::End => RunOutcome::Halt { state: st },
            OpCode::Push(k) => {
                if k < consts.len() {
                    spec_run(
                        code,
                        consts,
                        ip + 1,
                        MachineState { stack: st.stack.push(consts[k as int]), globals: st.globals },
                    )
                } else {
                    RunOutcome::Fault { kind: FaultKind::BadOperand, at: ip, state: st }
                }
            },
            OpCode::Pop => {
                if st.stack.len() == 0 {
                    RunOutcome::Fault { kind: FaultKind::StackUnderflow, at: ip, state: st }
                } else {
                    spec_run(
                        code,
                        consts,
                        ip + 1,
                        MachineState { stack: st.stack.drop_last(), globals: st.globals },
                    )
                }
            },
            OpCode::Add => {
                if st.stack.len() < 2 {
                    RunOutcome::Fault { kind: FaultKind::StackUnderflow, at: ip, state: st }
                } else {
                    match (st.stack[st.stack.len() - 2], st.stack.last()) {
                        (Value::Integer(x), Value::Integer(y)) => spec_run(
                            code,
                            consts,
                            ip + 1,
                            MachineState {
                                stack: st.stack.drop_last().drop_last().push(
                                    Value::Integer(wrap_add(x, y)),
                                ),
                                globals: st.globals,
                            },
                        ),
                        _ => RunOutcome::Fault { kind: FaultKind::TypeMismatch, at: ip, state: st },
                    }
                }
            },
            OpCode::Subtract => {
                if st.stack.len() < 2 {
                    RunOutcome::Fault { kind: FaultKind::StackUnderflow, at: ip, state: st }
                } else {
                    match (st.stack[st.stack.len() - 2], st.stack.last()) {
                        (Value::Integer(x), Value::Integer(y)) => spec_run(
                            code,
                            consts,
                            ip + 1,
                            MachineState {
                                stack: st.stack.drop_last().drop_last().push(
                                    Value::Integer(wrap_sub(x, y)),
                                ),
                                globals: st.globals,
                            },
                        ),
                        _ => RunOutcome::Fault { kind: FaultKind::TypeMismatch, at: ip, state: st },
                    }
                }
            },
            OpCode::Multiply => {
                if st.stack.len() < 2 {
                    RunOutcome::Fault { kind: FaultKind::StackUnderflow, at: ip, state: st }
                } else {
                    match (st.stack[st.stack.len() - 2], st.stack.last()) {
                        (Value::Integer(x), Value::Integer(y)) => spec_run(
                            code,
                            consts,
                            ip + 1,
                            MachineState {
                                stack: st.stack.drop_last().drop_last().push(
                                    Value::Integer(wrap_mul(x, y)),
                                ),
                                globals: st.globals,
                            },
                        ),
                        _ => RunOutcome::Fault { kind: FaultKind::TypeMismatch, at: ip, state: st },
                    }
                }
            },
            OpCode::Negate => {
                if st.stack.len() == 0 {
                    RunOutcome::Fault { kind: FaultKind::StackUnderflow, at: ip, state: st }
                } else {
                    match st.stack.last() {
                        Value::Integer(x) => spec_run(
                            code,
                            consts,
                            ip + 1,
                            MachineState {
                                stack: st.stack.drop_last().push(Value::Integer(wrap_neg(x))),
                                globals: st.globals,
                            },
                        ),
                        _ => RunOutcome::Fault { kind: FaultKind::TypeMismatch, at: ip, state: st },
                    }
                }
            },
            OpCode::Insert(k) => {
                if k < consts.len() && consts[k as int] is Str {
                    if st.stack.len() == 0 {
                        RunOutcome::Fault { kind: FaultKind::StackUnderflow, at: ip, state: st }
                    } else {
                        let h = consts[k as int]->Str_0;
                        spec_run(
                            code,
                            consts,
                            ip + 1,
                            MachineState {
                                stack: st.stack.drop_last(),
                                globals: st.globals.insert(h, st.stack.last()),
                            },
                        )
                    }
                } else {
                    RunOutcome::Fault { kind: FaultKind::BadOperand, at: ip, state: st }
                }
            },
            OpCode::Load(k) => {
                if k < consts.len() && consts[k as int] is Str {
                    let h = consts[k as int]->Str_0;
                    if st.globals.contains_key(h) {
                        spec_run(
                            code,
                            consts,
                            ip + 1,
                            MachineState { stack: st.stack.push(st.globals[h]), globals: st.globals },
                        )
                    } else {
                        RunOutcome::Fault { kind: FaultKind::UndefinedGlobal, at: ip, state: st }
                    }
                } else {
                    RunOutcome::Fault { kind: FaultKind::BadOperand, at: ip, state: st }
                }
            },
        }
    }
}

/// A runtime fault for the instruction at `ip`, carrying that
/// instruction's source position from the chunk's debug table (or 0/0 when
/// a hand-built chunk has no entry for it).
fn fault_at(chunk: &Chunk, kind: FaultKind, ip: usize) -> (f: RuntimeFault)
    ensures
        f.kind == kind,
        ip < chunk.lines@.len() ==> f.row == chunk.lines@[ip as int].row && f.column
            == chunk.lines@[ip as int].column,
        chunk.lines@.len() <= ip ==> f.row == 0 && f.column == 0,
{
    if ip < chunk.lines.len() {
        RuntimeFault { kind, row: chunk.lines[ip].row, column: chunk.lines[ip].column }
    } else {
        RuntimeFault { kind, row: 0, column: 0 }
    }
}

/// Whether a runtime fault value reports the given outcome against the
/// given chunk: the kinds agree and the position is the faulting
/// instruction's entry in the debug table.
pub open spec fn fault_reported(f: RuntimeFault, kind: FaultKind, at: int, lines: Seq<Pos>) -> bool {
    &&& f.kind == kind
    &&& (0 <= at < lines.len() ==> f.row == lines[at].row && f.column == lines[at].column)
    &&& !(0 <= at < lines.len()) ==> f.row == 0 && f.column == 0
}

/// A session of the interpreter: the global-variable table, the string
/// intern pool and the value stack.  One `Hymn` value persists across many
/// compilations and executions, so globals bound by one run remain visible
/// to the next.
pub struct Hymn {
    pub globals: HashMap<usize, Value>,
    pub strings: Interner,
    pub stack: Vec<Value>,
}

impl Hymn {
    /// A fresh session: no globals, no interned strings, an empty stack.
    pub fn new() -> (r: Hymn)
        ensures
            r.globals@ == Map::<usize, Value>::empty(),
            r.strings@ == Seq::<Seq<char>>::empty(),
            r.stack@ == Seq::<Value>::empty(),
    {
        Hymn { globals: HashMap::new(), strings: Interner::new(), stack: Vec::new() }
    }

    /// Intern a text in this session's pool and return its handle.  Equal
    /// texts always yield equal handles; distinct texts, distinct handles.
    pub fn intern(&mut self, text: &str) -> (h: usize)
        ensures
            final(self).strings@ == crate::value::pool_after(old(self).strings@, text@),
            crate::value::seq_extends(old(self).strings@, final(self).strings@),
            h == crate::value::pool_find(final(self).strings@, text@),
            h < final(self).strings@.len(),
            final(self).strings@[h as int] == text@,
            final(self).globals@ == old(self).globals@,
            final(self).stack@ == old(self).stack@,
    {
        let n = text.unicode_len();
        let mut buf: Vec<char> = Vec::new();
        let mut i: usize = 0;
        while i < n
            invariant
                n == text@.len(),
                0 <= i <= n,
                buf@ == text@.subrange(0, i as int),
            decreases n - i,
        {
            buf.push(text.get_char(i));
            proof {
                assert(buf@ =~= text@.subrange(0, i + 1));
            }
            i += 1;
        }
        proof {
            assert(buf@ =~= text@);
        }
        self.strings.intern(buf)
    }

    /// Run a chunk to completion, reusing this session's globals and value
    /// stack.  The result, the final stack and the final globals are
    /// exactly what [`spec_run`] assigns to the chunk from instruction 0;
    /// a fault carries the offending instruction's source position.
    pub fn execute(&mut self, chunk: &Chunk) -> (res: Result<(), RuntimeFault>)
        ensures
            final(self).strings@ == old(self).strings@,
            ({
                let r = spec_run(
                    chunk.code@,
                    chunk.constants@,
                    0,
                    (MachineState { stack: old(self).stack@, globals: old(self).globals@ }),
                );
                match r {
                    RunOutcome::Halt { state } => res is Ok && final(self).stack@ == state.stack
                        && final(self).globals@ == state.globals,
                    RunOutcome::Fault { kind, at, state } => res matches Err(f)
                        && fault_reported(f, kind, at, chunk.lines@)
                        && final(self).stack@ == state.stack
                        && final(self).globals@ == state.globals,
                }
            }),
    {
        let ghost init = MachineState { stack: self.stack@, globals: self.globals@ };
        let n = chunk.code.len();
        let mut ip: usize = 0;
        loop
            invariant
                ip <= n,
                n == chunk.code@.len(),
                self.strings@ == old(self).strings@,
                init == (MachineState { stack: old(self).stack@, globals: old(self).globals@ }),
                spec_run(chunk.code@, chunk.constants@, 0, init) == spec_run(
                    chunk.code@,
                    chunk.constants@,
                    ip as int,
                    (MachineState { stack: self.stack@, globals: self.globals@ }),
                ),
            decreases n - ip,
        {
            if ip >= n {
                return Ok(());
            }
            let ghost cur = MachineState { stack: self.stack@, globals: self.globals@ };
            let op = chunk.code[ip];
            match op {
                OpCode::End => {
                    return Ok(());
                },
                OpCode::Push(k) => {
                    if k < chunk.constants.len() {
                        self.stack.push(chunk.constants[k]);
                    } else {
                        return Err(fault_at(chunk, FaultKind::BadOperand, ip));
                    }
                },
                OpCode::Pop => {
                    if self.stack.len() == 0 {
                        return Err(fault_at(chunk, FaultKind::StackUnderflow, ip));
                    }
                    self.stack.pop();
                    proof {
                        assert(self.stack@ =~= cur.stack.drop_last());
                    }
                },
                OpCode::Add | OpCode::Subtract | OpCode::Multiply => {
                    if self.stack.len() < 2 {
                        return Err(fault_at(chunk, FaultKind::StackUnderflow, ip));
                    }
                    let b = self.stack[self.stack.len() - 1];
                    let a = self.stack[self.stack.len() - 2];
                    match (a, b) {
                        (Value::Integer(x), Value::Integer(y)) => {
                            let r = match op {
                                OpCode::Add => x.wrapping_add(y),
                                OpCode::Subtract => x.wrapping_sub(y),
                                _ => x.wrapping_mul(y),
                            };
                            self.stack.pop();
                            self.stack.pop();
                            self.stack.push(Value::Integer(r));
                            proof {
                                assert(self.stack@ =~= cur.stack.drop_last().drop_last().push(
                                    Value::Integer(r),
                                ));
                            }
                        },
                        _ => {
                            return Err(fault_at(chunk, FaultKind::TypeMismatch, ip));
                        },
                    }
                },
                OpCode::Negate => {
                    if self.stack.len() == 0 {
                        return Err(fault_at(chunk, FaultKind::StackUnderflow, ip));
                    }
                    let a = self.stack[self.stack.len() - 1];
                    match a {
                        Value::Integer(x) => {
                            let r = if x == i64::MIN {
                                i64::MIN
                            } else {
                                -x
                            };
                            self.stack.pop();
                            self.stack.push(Value::Integer(r));
                            proof {
                                assert(r == wrap_neg(x));
                                assert(self.stack@ =~= cur.stack.drop_last().push(
                                    Value::Integer(r),
                                ));
                            }
                        },
                        _ => {
                            return Err(fault_at(chunk, FaultKind::TypeMismatch, ip));
                        },
                    }
                },
                OpCode::Insert(k) => {
                    if k >= chunk.constants.len() {
                        return Err(fault_at(chunk, FaultKind::BadOperand, ip));
                    }
                    match chunk.constants[k] {
                        Value::Str(h) => {
                            if self.stack.len() == 0 {
                                return Err(fault_at(chunk, FaultKind::StackUnderflow, ip));
                            }
                            let v = self.stack.pop().unwrap();
                            self.globals.insert(h, v);
                            proof {
                                assert(self.stack@ =~= cur.stack.drop_last());
                            }
                        },
                        _ => {
                            return Err(fault_at(chunk, FaultKind::BadOperand, ip));
                        },
                    }
                },
                OpCode::Load(k) => {
                    if k >= chunk.constants.len() {
                        return Err(fault_at(chunk, FaultKind::BadOperand, ip));
                    }
                    match chunk.constants[k] {
                        Value::Str(h) => {
                            match self.globals.get(&h) {
                                Some(v) => {
                                    let vv = *v;
                                    self.stack.push(vv);
                                },
                                None => {
                                    return Err(fault_at(chunk, FaultKind::UndefinedGlobal, ip));
                                },
                            }
                        },
                        _ => {
                            return Err(fault_at(chunk, FaultKind::BadOperand, ip));
                        },
                    }
                },
            }
            proof {
                assert(spec_run(chunk.code@, chunk.constants@, ip as int, cur) == spec_run(
                    chunk.code@,
                    chunk.constants@,
                    ip + 1,
                    MachineState { stack: self.stack@, globals: self.globals@ },
                ));
            }
            ip = ip + 1;
        }
    }
}

/// The law of integer addition programs: for every pair of 64-bit integer
/// constants a and b, running the program `push a; push b; add` from an
/// empty stack halts with exactly the wrapping sum of a and b on the
/// stack, whatever the global bindings are.
pub proof fn lemma_add_program(a: i64, b: i64, g: Map<usize, Value>)
    ensures
        ({
            let code = seq![OpCode::Push(0), OpCode::Push(1), OpCode::Add, OpCode::End];
            let consts = seq![Value::Integer(a), Value::Integer(b)];
            let start = MachineState { stack: Seq::empty(), globals: g };
            let done = MachineState { stack: seq![Value::Integer(wrap_add(a, b))], globals: g };
            spec_run(code, consts, 0, start) == RunOutcome::Halt { state: done }
        }),
{
    let code = seq![OpCode::Push(0), OpCode::Push(1), OpCode::Add, OpCode::End];
    let consts = seq![Value::Integer(a), Value::Integer(b)];
    let start = MachineState { stack: Seq::<Value>::empty(), globals: g };
    let s1 = MachineState { stack: seq![Value::Integer(a)], globals: g };
    let s2 = MachineState { stack: seq![Value::Integer(a), Value::Integer(b)], globals: g };
    let done = MachineState { stack: seq![Value::Integer(wrap_add(a, b))], globals: g };
    assert(start.stack.push(Value::Integer(a)) =~= s1.stack);
    assert(spec_run(code, consts, 0, start) == spec_run(code, consts, 1, s1));
    assert(s1.stack.push(Value::Integer(b)) =~= s2.stack);
    assert(spec_run(code, consts, 1, s1) == spec_run(code, consts, 2, s2));
    assert(s2.stack[0] == Value::Integer(a));
    assert(s2.stack.last() == Value::Integer(b));
    assert(s2.stack.drop_last().drop_last().push(Value::Integer(wrap_add(a, b))) =~= done.stack);
    assert(spec_run(code, consts, 2, s2) == spec_run(code, consts, 3, done));
    assert(spec_run(code, consts, 3, done) == RunOutcome::Halt { state: done });
}

/// The law of popping an empty stack: a `Pop` instruction reached with an
/// empty value stack always yields a stack-underflow fault at that
/// instruction, whatever the chunk and the globals -- never a silent
/// no-op.
pub proof fn lemma_pop_on_empty_faults(
    code: Seq<OpCode>,
    consts: Seq<Value>,
    ip: int,
    g: Map<usize, Value>,
)
    requires
        0 <= ip < code.len(),
        code[ip] == OpCode::Pop,
    ensures
        ({
            let st = MachineState { stack: Seq::empty(), globals: g };
            spec_run(code, consts, ip, st) == (RunOutcome::Fault {
                kind: FaultKind::StackUnderflow,
                at: ip,
                state: st,
            })
        }),
{
}

/// The persistence law for global bindings: a run of a chunk that holds no
/// `Insert` instruction leaves the globals exactly as it found them,
/// whether it halts or faults.  Together with the contract of `execute`,
/// which threads one session's globals from call to call, this is why a
/// binding made by one run is still visible to the next.
pub proof fn lemma_run_without_insert_preserves_globals(
    code: Seq<OpCode>,
    consts: Seq<Value>,
    ip: int,
    st: MachineState,
)
    requires
        0 <= ip <= code.len(),
        forall|i: int| 0 <= i < code.len() ==> !(#[trigger] code[i] is Insert),
    ensures
        ({
            match spec_run(code, consts, ip, st) {
                RunOutcome::Halt { state } => state.globals == st.globals,
                RunOutcome::Fault { kind, at, state } => state.globals == st.globals,
            }
        }),
    decreases code.len() - ip,
{
    if ip >= code.len() {
    } else {
        match code[ip] {
            OpCode::End => {},
            OpCode::Push(k) => {
                if k < consts.len() {
                    lemma_run_without_insert_preserves_globals(
                        code,
                        consts,
                        ip + 1,
                        MachineState { stack: st.stack.push(consts[k as int]), globals: st.globals },
                    );
                }
            },
            OpCode::Pop => {
                if st.stack.len() > 0 {
                    lemma_run_without_insert_preserves_globals(
                        code,
                        consts,
                        ip + 1,
                        MachineState { stack: st.stack.drop_last(), globals: st.globals },
                    );
                }
            },
            OpCode::Add => {
                if st.stack.len() >= 2 {
                    match (st.stack[st.stack.len() - 2], st.stack.last()) {
                        (Value::Integer(x), Value::Integer(y)) => {
                            lemma_run_without_insert_preserves_globals(
                                code,
                                consts,
                                ip + 1,
                                MachineState {
                                    stack: st.stack.drop_last().drop_last().push(
                                        Value::Integer(wrap_add(x, y)),
                                    ),
                                    globals: st.globals,
                                },
                            );
                        },
                        _ => {},
                    }
                }
            },
            OpCode::Subtract => {
                if st.stack.len() >= 2 {
                    match (st.stack[st.stack.len() - 2], st.stack.last()) {
                        (Value::Integer(x), Value::Integer(y)) => {
                            lemma_run_without_insert_preserves_globals(
                                code,
                                consts,
                                ip + 1,
                                MachineState {
                                    stack: st.stack.drop_last().drop_last().push(
                                        Value::Integer(wrap_sub(x, y)),
                                    ),
                                    globals: st.globals,
                                },
                            );
                        },
                        _ => {},
                    }
                }
            },
            OpCode::Multiply => {
                if st.stack.len() >= 2 {
                    match (st.stack[st.stack.len() - 2], st.stack.last()) {
                        (Value::Integer(x), Value::Integer(y)) => {
                            lemma_run_without_insert_preserves_globals(
                                code,
                                consts,
                                ip + 1,
                                MachineState {
                                    stack: st.stack.drop_last().drop_last().push(
                                        Value::Integer(wrap_mul(x, y)),
                                    ),
                                    globals: st.globals,
                                },
                            );
                        },
                        _ => {},
                    }
                }
            },
            OpCode::Negate => {
                if st.stack.len() > 0 {
                    match st.stack.last() {
                        Value::Integer(x) => {
                            lemma_run_without_insert_preserves_globals(
                                code,
                                consts,
                                ip + 1,
                                MachineState {
                                    stack: st.stack.drop_last().push(Value::Integer(wrap_neg(x))),
                                    globals: st.globals,
                                },
                            );
                        },
                        _ => {},
                    }
                }
            },
            OpCode::Insert(k) => {
                assert(code[ip] is Insert);
            },
            OpCode::Load(k) => {
                if k < consts.len() && consts[k as int] is Str {
                    let h = consts[k as int]->Str_0;
                    if st.globals.contains_key(h) {
                        lemma_run_without_insert_preserves_globals(
                            code,
                            consts,
                            ip + 1,
                            MachineState { stack: st.stack.push(st.globals[h]), globals: st.globals },
                        );
                    }
                }
            },
        }
    }
}

} // verus!
