use hymn::chunk::{Chunk, OpCode, Pos};
use hymn::compiler::{compile, interpret};
use hymn::diag::{DiagKind, FaultKind, InterpretError};
use hymn::lexer::{advance, next_char, peek_char, Compiler, Token, TokenType};
use hymn::value::Value;
use hymn::vm::Hymn;

fn run(vm: &mut Hymn, source: &str) {
    match interpret(vm, source) {
        Ok(()) => {}
        Err(e) => panic!("unexpected error for {:?}: {:?}", source, e),
    }
}

fn top(vm: &Hymn) -> Value {
    *vm.stack.last().expect("value stack is empty")
}

#[test]
fn blank_compiles_to_end() {
    let mut vm = Hymn::new();
    let chunk = compile(&mut vm, "   # a comment\n\t\r\n  # another\n").expect("blank source");
    assert_eq!(chunk.code, vec![OpCode::End]);
    assert!(chunk.constants.is_empty());
}

#[test]
fn empty_source_compiles_to_end() {
    let mut vm = Hymn::new();
    let chunk = compile(&mut vm, "").expect("empty source");
    assert_eq!(chunk.code, vec![OpCode::End]);
}

#[test]
fn addition_of_two_integers() {
    let mut vm = Hymn::new();
    run(&mut vm, "2 + 3");
    assert_eq!(top(&vm), Value::Integer(5));
}

#[test]
fn add_wraps_on_overflow() {
    let mut vm = Hymn::new();
    run(&mut vm, "9223372036854775807 + 1");
    assert_eq!(top(&vm), Value::Integer(i64::MIN));
}

#[test]
fn subtraction_left_associative() {
    let mut vm = Hymn::new();
    run(&mut vm, "1 - 2 - 3");
    assert_eq!(top(&vm), Value::Integer(-4));

    let mut vm2 = Hymn::new();
    run(&mut vm2, "(1 - 2) - 3");
    assert_eq!(top(&vm2), Value::Integer(-4));
}

#[test]
fn multiplication_before_addition() {
    let mut vm = Hymn::new();
    run(&mut vm, "1 + 2 * 3");
    assert_eq!(top(&vm), Value::Integer(7));
}

#[test]
fn parentheses_override_precedence() {
    let mut vm = Hymn::new();
    run(&mut vm, "(1 + 2) * 3");
    assert_eq!(top(&vm), Value::Integer(9));
}

#[test]
fn unary_minus() {
    let mut vm = Hymn::new();
    run(&mut vm, "-5");
    assert_eq!(top(&vm), Value::Integer(-5));

    let mut vm2 = Hymn::new();
    run(&mut vm2, "2 * -3");
    assert_eq!(top(&vm2), Value::Integer(-6));
}

#[test]
fn intern_same_text_twice_equal_handles() {
    let mut vm = Hymn::new();
    let a = vm.intern("melody");
    let b = vm.intern("melody");
    assert_eq!(a, b);
}

#[test]
fn intern_different_texts_unequal_handles() {
    let mut vm = Hymn::new();
    let a = vm.intern("melody");
    let b = vm.intern("harmony");
    assert_ne!(a, b);
    let c = vm.intern("melody");
    assert_eq!(a, c);
}

#[test]
fn lookup_resolves_a_handle_to_its_text() {
    let mut vm = Hymn::new();
    let h = vm.intern("tune");
    let text = vm.strings.lookup(h).expect("handle is live");
    assert_eq!(text, &vec!['t', 'u', 'n', 'e']);
    assert!(vm.strings.lookup(h + 1000).is_none());
    assert_eq!(vm.strings.len(), 1);
}

#[test]
fn globals_persist_across_runs() {
    let mut vm = Hymn::new();
    run(&mut vm, "x = 1");
    // an assignment is an expression yielding the assigned value
    assert_eq!(top(&vm), Value::Integer(1));
    run(&mut vm, "x + 1");
    assert_eq!(top(&vm), Value::Integer(2));
}

#[test]
fn assignment_overwrites_binding() {
    let mut vm = Hymn::new();
    run(&mut vm, "x = 2");
    run(&mut vm, "x = x * 10");
    run(&mut vm, "x + 1");
    assert_eq!(top(&vm), Value::Integer(21));
}

#[test]
fn missing_operand_fails_at_position() {
    let mut vm = Hymn::new();
    let err = compile(&mut vm, "1 +").expect_err("must not compile");
    assert_eq!(err.kind, DiagKind::ExpectedExpression);
    assert_eq!(err.row, 1);
    assert_eq!(err.column, 4);
}

#[test]
fn failed_compile_executes_nothing() {
    let mut vm = Hymn::new();
    let res = interpret(&mut vm, "1 +");
    assert!(matches!(res, Err(InterpretError::Compile(_))));
    assert!(vm.stack.is_empty());
    run(&mut vm, "1 + 1");
    assert_eq!(top(&vm), Value::Integer(2));
}

#[test]
fn push_push_add_program() {
    // the bytecode program `push a; push b; add` computes the sum
    let mut chunk = Chunk::new();
    let ka = chunk.add_constant(Value::Integer(40));
    let kb = chunk.add_constant(Value::Integer(2));
    chunk.emit(OpCode::Push(ka), Pos { row: 1, column: 1 });
    chunk.emit(OpCode::Push(kb), Pos { row: 1, column: 2 });
    chunk.emit(OpCode::Add, Pos { row: 1, column: 3 });
    chunk.emit(OpCode::End, Pos { row: 1, column: 4 });
    let mut vm = Hymn::new();
    vm.execute(&chunk).expect("runs to completion");
    assert_eq!(vm.stack, vec![Value::Integer(42)]);
}

#[test]
fn pop_empty_stack_faults() {
    let mut chunk = Chunk::new();
    chunk.emit(OpCode::Pop, Pos { row: 3, column: 7 });
    chunk.emit(OpCode::End, Pos { row: 3, column: 8 });
    let mut vm = Hymn::new();
    let fault = vm.execute(&chunk).expect_err("popping an empty stack");
    assert_eq!(fault.kind, FaultKind::StackUnderflow);
    assert_eq!(fault.row, 3);
    assert_eq!(fault.column, 7);
}

#[test]
fn undefined_global_faults() {
    let mut vm = Hymn::new();
    let res = interpret(&mut vm, "nowhere + 1");
    match res {
        Err(InterpretError::Runtime(f)) => assert_eq!(f.kind, FaultKind::UndefinedGlobal),
        other => panic!("expected a runtime fault, got {:?}", other),
    }
}

#[test]
fn arithmetic_on_non_integer_faults() {
    let mut chunk = Chunk::new();
    let k = chunk.add_constant(Value::Nil);
    chunk.emit(OpCode::Push(k), Pos { row: 1, column: 1 });
    chunk.emit(OpCode::Negate, Pos { row: 1, column: 2 });
    chunk.emit(OpCode::End, Pos { row: 1, column: 3 });
    let mut vm = Hymn::new();
    let fault = vm.execute(&chunk).expect_err("negating nil");
    assert_eq!(fault.kind, FaultKind::TypeMismatch);
    assert_eq!(fault.row, 1);
    assert_eq!(fault.column, 2);
}

#[test]
fn bad_operand_faults() {
    let mut chunk = Chunk::new();
    chunk.emit(OpCode::Push(5), Pos { row: 1, column: 1 });
    chunk.emit(OpCode::End, Pos { row: 1, column: 2 });
    let mut vm = Hymn::new();
    let fault = vm.execute(&chunk).expect_err("operand out of range");
    assert_eq!(fault.kind, FaultKind::BadOperand);
}

#[test]
fn unexpected_character_is_reported() {
    let mut vm = Hymn::new();
    let err = compile(&mut vm, "1 + @").expect_err("must not compile");
    assert_eq!(err.kind, DiagKind::UnexpectedCharacter);
    assert_eq!(err.row, 1);
    assert_eq!(err.column, 5);
}

#[test]
fn error_position_after_newline() {
    let mut vm = Hymn::new();
    let err = compile(&mut vm, "\n @").expect_err("must not compile");
    assert_eq!(err.kind, DiagKind::UnexpectedCharacter);
    assert_eq!(err.row, 2);
    assert_eq!(err.column, 2);
}

#[test]
fn missing_right_paren_is_reported() {
    let mut vm = Hymn::new();
    let err = compile(&mut vm, "(1 + 2").expect_err("must not compile");
    assert_eq!(err.kind, DiagKind::ExpectedRightParen);
}

#[test]
fn missing_semicolon_is_reported() {
    let mut vm = Hymn::new();
    let err = compile(&mut vm, "1 2").expect_err("must not compile");
    assert_eq!(err.kind, DiagKind::ExpectedSemicolon);
    assert_eq!(err.row, 1);
    assert_eq!(err.column, 3);
}

#[test]
fn oversized_integer_literal_is_reported() {
    let mut vm = Hymn::new();
    let err = compile(&mut vm, "99999999999999999999").expect_err("must not compile");
    assert_eq!(err.kind, DiagKind::IntegerTooLarge);
    assert_eq!(err.row, 1);
    assert_eq!(err.column, 1);
}

#[test]
fn largest_integer_literal_compiles() {
    let mut vm = Hymn::new();
    run(&mut vm, "9223372036854775807");
    assert_eq!(top(&vm), Value::Integer(i64::MAX));
}

#[test]
fn statements_discard_previous_value() {
    let mut vm = Hymn::new();
    run(&mut vm, "10; 20; 30");
    assert_eq!(vm.stack, vec![Value::Integer(30)]);
}

#[test]
fn statements_bind_then_use() {
    let mut vm = Hymn::new();
    run(&mut vm, "a = 6; b = 7; a * b");
    assert_eq!(top(&vm), Value::Integer(42));
}

#[test]
fn assignment_inside_expression_yields_value() {
    let mut vm = Hymn::new();
    run(&mut vm, "(x = 4) + 1");
    assert_eq!(top(&vm), Value::Integer(5));
    run(&mut vm, "x");
    assert_eq!(top(&vm), Value::Integer(4));
}

#[test]
fn trailing_semicolon_keeps_last_value() {
    let mut vm = Hymn::new();
    run(&mut vm, "5;");
    assert_eq!(vm.stack, vec![Value::Integer(5)]);
}

#[test]
fn semicolon_alone_is_an_error() {
    let mut vm = Hymn::new();
    let err = compile(&mut vm, ";").expect_err("no expression to parse");
    assert_eq!(err.kind, DiagKind::ExpectedExpression);
    assert_eq!(err.row, 1);
    assert_eq!(err.column, 1);
}

#[test]
fn identifiers_with_digits_and_underscores() {
    let mut vm = Hymn::new();
    run(&mut vm, "a_1 = 3; _b2 = 4; a_1 * _b2");
    assert_eq!(top(&vm), Value::Integer(12));
}

#[test]
fn comment_inside_expression() {
    let mut vm = Hymn::new();
    run(&mut vm, "1 + # the right operand follows\n2");
    assert_eq!(top(&vm), Value::Integer(3));
}

#[test]
fn value_equality_no_coercion() {
    assert!(Value::Nil.equals(Value::Nil));
    assert!(Value::Bool(true).equals(Value::Bool(true)));
    assert!(!Value::Bool(true).equals(Value::Bool(false)));
    assert!(Value::Integer(1).equals(Value::Integer(1)));
    assert!(!Value::Integer(1).equals(Value::Bool(true)));
    assert!(!Value::Integer(0).equals(Value::Nil));
    assert!(Value::Str(2).equals(Value::Str(2)));
    assert!(!Value::Str(2).equals(Value::Str(3)));
}

#[test]
fn token_and_compiler_construction() {
    let t = Token::new();
    assert_eq!(t.is, TokenType::End);
    assert_eq!(t.length, 0);
    let cm = Compiler::new();
    assert_eq!(cm.row, 1);
    assert_eq!(cm.column, 0);
    assert_eq!(cm.pos, 0);
    assert!(cm.error.is_none());
}

#[test]
fn cursor_walks_the_source() {
    let mut cm = Compiler::new();
    cm.source = vec!['a', '\n', 'b'];
    assert_eq!(peek_char(&mut cm), 'a');
    assert_eq!(next_char(&mut cm), 'a');
    assert_eq!(cm.row, 1);
    assert_eq!(cm.column, 1);
    assert_eq!(next_char(&mut cm), '\n');
    assert_eq!(cm.row, 2);
    assert_eq!(cm.column, 0);
    assert_eq!(next_char(&mut cm), 'b');
    assert_eq!(next_char(&mut cm), '\0');
    assert_eq!(peek_char(&mut cm), '\0');
}

#[test]
fn advance_is_idempotent_at_end() {
    let mut cm = Compiler::new();
    cm.source = vec!['7'];
    let first = hymn::lexer::next_token(&mut cm);
    assert_eq!(first.is, TokenType::Integer);
    cm.current = first;
    advance(&mut cm);
    assert_eq!(cm.previous.is, TokenType::Integer);
    assert_eq!(cm.current.is, TokenType::End);
    advance(&mut cm);
    assert_eq!(cm.current.is, TokenType::End);
    advance(&mut cm);
    assert_eq!(cm.current.is, TokenType::End);
}

#[test]
fn disassembly_lists_without_executing() {
    let mut vm = Hymn::new();
    let text = hymn::disasm::compile_and_disassemble(&mut vm, "x = 7")
        .expect("compiles");
    // the identifier's name constant is added first, then the literal
    assert!(text.contains("Push 1"));
    assert!(text.contains("Insert 0"));
    assert!(text.contains("Load 0"));
    assert!(text.contains("End"));
    assert!(text.contains("constants:"));
    assert!(text.contains("0: string #0"));
    assert!(text.contains("1: 7"));
    // nothing was executed
    assert!(vm.stack.is_empty());
    assert!(vm.globals.is_empty());
}

#[test]
fn disassembly_reports_compile_errors() {
    let mut vm = Hymn::new();
    let err = hymn::disasm::compile_and_disassemble(&mut vm, "1 +")
        .expect_err("must not compile");
    assert_eq!(err.kind, DiagKind::ExpectedExpression);
}

#[test]
fn compiled_chunk_records_positions() {
    let mut vm = Hymn::new();
    let chunk = compile(&mut vm, "1 + 2").expect("compiles");
    assert_eq!(chunk.code.len(), chunk.lines.len());
    assert_eq!(
        chunk.code,
        vec![OpCode::Push(0), OpCode::Push(1), OpCode::Add, OpCode::End]
    );
    assert_eq!(chunk.constants, vec![Value::Integer(1), Value::Integer(2)]);
    // the Add opcode carries the operator's position
    assert_eq!(chunk.lines[2], Pos { row: 1, column: 3 });
}
