use eos::chunk::{disassemble, Chunk, DEFAULT_CAPACITY, INSTRUCTION_SIZE, VALUE_SIZE};
use eos::compiler::{parse_integer, CompileMessage, Compiler};
use eos::interpreter::{interpret, InterpretError};
use eos::lexer::Lexer;
use eos::opcode::OpCode;
use eos::token::TokenType;
use eos::precedence::Precedence;
use eos::value::{float_equal, float_less, Arith, FloatArith, ObjString, OpError, Value};
use eos::vm::{VmError, VM};

struct HostFloats;

impl FloatArith for HostFloats {
    fn parse_float(&self, lexeme: &[u8]) -> u64 {
        std::str::from_utf8(lexeme)
            .ok()
            .and_then(|s| s.parse::<f64>().ok())
            .unwrap_or(f64::NAN)
            .to_bits()
    }

    fn int_to_float(&self, i: i64) -> u64 {
        (i as f64).to_bits()
    }

    fn float_op(&self, op: Arith, a: u64, b: u64) -> u64 {
        let (x, y) = (f64::from_bits(a), f64::from_bits(b));
        let r = match op {
            Arith::Add => x + y,
            Arith::Subtract => x - y,
            Arith::Multiply => x * y,
            Arith::Divide => x / y,
        };
        r.to_bits()
    }
}

fn run(source: &str) -> Vec<Value> {
    interpret(source, &HostFloats).unwrap().0
}

fn text(s: &str) -> Value {
    Value::Object(ObjString::new(s.as_bytes().to_vec()))
}

fn kinds(source: &str) -> Vec<TokenType> {
    let mut lexer = Lexer::new(source);
    lexer.lexing().iter().map(|t| t.token_type).collect()
}

#[test]
fn precedence_of_product_over_sum() {
    assert_eq!(run("1 + 2 * 3"), vec![Value::Integer(7)]);
}

#[test]
fn grouping_overrides_precedence() {
    assert_eq!(run("(1 + 2) * 3"), vec![Value::Integer(9)]);
}

#[test]
fn unary_minus_binds_tighter() {
    assert_eq!(run("-3 + 5"), vec![Value::Integer(2)]);
}

#[test]
fn strings_concatenate() {
    assert_eq!(run("\"foo\" + \"bar\""), vec![text("foobar")]);
}

#[test]
fn comparisons() {
    assert_eq!(run("1 < 2"), vec![Value::Boolean(true)]);
    assert_eq!(run("2 <= 2"), vec![Value::Boolean(true)]);
    assert_eq!(run("3 >= 4"), vec![Value::Boolean(false)]);
    assert_eq!(run("3 > 2"), vec![Value::Boolean(true)]);
}

#[test]
fn less_equal_compiles_to_greater_then_negate() {
    let source = "2 <= 2";
    let mut lexer = Lexer::new(source);
    let mut compiler = Compiler::new(lexer.lexing(), source, Chunk::new(DEFAULT_CAPACITY));
    assert!(compiler.compile(&HostFloats).is_some());
    let chunk = compiler.into_chunk();
    let step = INSTRUCTION_SIZE + VALUE_SIZE;
    assert_eq!(chunk.read_opcode(0).map(|r| r.0), Some(OpCode::Constant));
    assert_eq!(chunk.read_opcode(step).map(|r| r.0), Some(OpCode::Constant));
    assert_eq!(chunk.read_opcode(2 * step).map(|r| r.0), Some(OpCode::Greater));
    assert_eq!(chunk.read_opcode(2 * step + INSTRUCTION_SIZE).map(|r| r.0), Some(OpCode::Negate));
    assert_eq!(chunk.size(), 2 * step + 2 * INSTRUCTION_SIZE);
}

#[test]
fn logic_and_equality() {
    assert_eq!(run("!true"), vec![Value::Boolean(false)]);
    assert_eq!(run("true == false"), vec![Value::Boolean(false)]);
    assert_eq!(run("1 == 1.0"), vec![Value::Boolean(false)]);
    assert_eq!(run("1 != 2"), vec![Value::Boolean(true)]);
    assert_eq!(run("Null == Null"), vec![Value::Boolean(true)]);
    assert_eq!(run("\"a\" == \"a\""), vec![Value::Boolean(true)]);
}

#[test]
fn left_associative_subtraction_and_division() {
    assert_eq!(run("10 - 4 - 3"), vec![Value::Integer(3)]);
    assert_eq!(run("100 / 10 / 5"), vec![Value::Integer(2)]);
    assert_eq!(run("7 / -2"), vec![Value::Integer(-3)]);
}

#[test]
fn float_arithmetic_and_promotion() {
    assert_eq!(run("1.5 + 1"), vec![Value::Float(2.5f64.to_bits())]);
    assert_eq!(run("1 < 1.5"), vec![Value::Boolean(true)]);
    assert_eq!(run("2.5 < 1.5"), vec![Value::Boolean(false)]);
    assert_eq!(run("-2.5"), vec![Value::Float((-2.5f64).to_bits())]);
}

#[test]
fn comments_and_lines() {
    assert_eq!(run("# a comment\n  1 +\n 2"), vec![Value::Integer(3)]);
}

#[test]
fn same_source_twice_same_stack() {
    let source = "(1 + 2) * 3 - \"x\" == \"x\"";
    let first = interpret(source, &HostFloats);
    let second = interpret(source, &HostFloats);
    assert_eq!(first, second);
    let source = "4 * 2 - 1";
    assert_eq!(run(source), run(source));
}

#[test]
fn compile_errors() {
    match interpret("(1 + 2", &HostFloats) {
        Err(InterpretError::Compile(Some(e))) => assert_eq!(e.message, CompileMessage::ExpectedRightParen),
        other => panic!("unexpected {:?}", other),
    }
    match interpret("1 2", &HostFloats) {
        Err(InterpretError::Compile(Some(e))) => assert_eq!(e.message, CompileMessage::ExpectedEnd),
        other => panic!("unexpected {:?}", other),
    }
    match interpret("+ 1", &HostFloats) {
        Err(InterpretError::Compile(Some(e))) => assert_eq!(e.message, CompileMessage::ExpectedExpression),
        other => panic!("unexpected {:?}", other),
    }
    match interpret("1 + @", &HostFloats) {
        Err(InterpretError::Compile(Some(e))) => assert_eq!(e.message, CompileMessage::LexError),
        other => panic!("unexpected {:?}", other),
    }
    match interpret("99999999999999999999", &HostFloats) {
        Err(InterpretError::Compile(Some(e))) => assert_eq!(e.message, CompileMessage::InvalidLiteral),
        other => panic!("unexpected {:?}", other),
    }
}

#[test]
fn runtime_errors() {
    let kind = |s: &str| match interpret(s, &HostFloats) {
        Err(InterpretError::Runtime(e)) => e.kind,
        other => panic!("unexpected {:?}", other),
    };
    assert_eq!(kind("1 / 0"), VmError::Operation(OpError::DivisionByZero));
    assert_eq!(kind("true + 1"), VmError::Operation(OpError::InvalidOperands));
    assert_eq!(kind("-\"s\""), VmError::Operation(OpError::NotNegatable));
    assert_eq!(kind("9223372036854775807 + 1"), VmError::Operation(OpError::Overflow));
    match interpret("1 +\n true", &HostFloats) {
        Err(InterpretError::Runtime(e)) => assert_eq!(e.line, 1),
        other => panic!("unexpected {:?}", other),
    }
}

#[test]
fn lexer_ends_with_one_end_of_file() {
    let ks = kinds("1 + (2 * 3) # done");
    assert_eq!(ks.iter().filter(|k| **k == TokenType::EndOfFile).count(), 1);
    assert_eq!(ks.last(), Some(&TokenType::EndOfFile));
    assert_eq!(kinds(""), vec![TokenType::EndOfFile]);
}

#[test]
fn lexer_integer_float() {
    assert_eq!(kinds("3.14"), vec![TokenType::Float, TokenType::EndOfFile]);
    assert_eq!(kinds("3..14"), vec![TokenType::Integer, TokenType::Error]);
    assert_eq!(kinds("42"), vec![TokenType::Integer, TokenType::EndOfFile]);
}

#[test]
fn lexer_two_byte_operators_stay_whole() {
    assert_eq!(
        kinds("!= == >= <= ! = > <"),
        vec![
            TokenType::BangEqual,
            TokenType::EqualEqual,
            TokenType::GreaterEqual,
            TokenType::LessEqual,
            TokenType::Bang,
            TokenType::Equal,
            TokenType::Greater,
            TokenType::Less,
            TokenType::EndOfFile
        ]
    );
    assert_eq!(kinds("1>=2"), vec![TokenType::Integer, TokenType::GreaterEqual, TokenType::Integer, TokenType::EndOfFile]);
}

#[test]
fn lexer_keywords_and_identifiers() {
    assert_eq!(
        kinds("for if while false this true name "),
        vec![
            TokenType::For,
            TokenType::If,
            TokenType::While,
            TokenType::False,
            TokenType::This,
            TokenType::True,
            TokenType::Identifier,
            TokenType::EndOfFile
        ]
    );
    assert_eq!(kinds("varx "), vec![TokenType::Var, TokenType::Identifier, TokenType::EndOfFile]);
    assert_eq!(kinds("name"), vec![TokenType::Error]);
}

#[test]
fn lexer_strings() {
    assert_eq!(kinds("\"a\" \"b c\" \"open"), vec![TokenType::Text, TokenType::Text, TokenType::Error]);
    let mut lexer = Lexer::new("\"abc\"");
    let t = lexer.next_token();
    assert_eq!(t.get_range(), 0..5);
    assert_eq!(t.get_strrange(), 1..4);
}

#[test]
fn lexer_whitespace_comment() {
    let mut lexer = Lexer::new("  \t(\n# note\n)");
    assert_eq!(lexer.next_token().token_type, TokenType::LeftParent);
    let t = lexer.next_token();
    assert_eq!(t.token_type, TokenType::RightParent);
    assert_eq!(t.line, 3);
    assert_eq!(lexer.next_token().token_type, TokenType::EndOfFile);
}

#[test]
fn chunk_round_trip() {
    let mut chunk = Chunk::new(1);
    chunk.add_value(Value::Integer(90), 7);
    chunk.add_opcode(OpCode::Negate, 8);
    chunk.add_value(text("hi"), 9);
    chunk.add_opcode(OpCode::Return, 10);
    let mut at = 0;
    assert_eq!(chunk.read_opcode(at), Some((OpCode::Constant, 7)));
    assert_eq!(chunk.read_value(at + INSTRUCTION_SIZE), Some((Value::Integer(90), 7)));
    at += INSTRUCTION_SIZE + VALUE_SIZE;
    assert_eq!(chunk.read_opcode(at), Some((OpCode::Negate, 8)));
    at += INSTRUCTION_SIZE;
    assert_eq!(chunk.read_opcode(at), Some((OpCode::Constant, 9)));
    assert_eq!(chunk.read_value(at + INSTRUCTION_SIZE), Some((text("hi"), 9)));
    at += INSTRUCTION_SIZE + VALUE_SIZE;
    assert_eq!(chunk.read_opcode(at), Some((OpCode::Return, 10)));
    at += INSTRUCTION_SIZE;
    assert_eq!(at, chunk.size());
    assert_eq!(chunk.read_opcode(at), None);
    assert!(chunk.capacity() >= chunk.size());
    assert_eq!(chunk.capacity(), 64);
}

#[test]
fn chunk_last_value_is_readable() {
    let mut chunk = Chunk::new(4);
    chunk.add_value(Value::Boolean(true), 1);
    assert_eq!(chunk.read_value(INSTRUCTION_SIZE), Some((Value::Boolean(true), 1)));
    assert_eq!(chunk.read_value(INSTRUCTION_SIZE + 1), None);
}

#[test]
fn literal_lines_are_kept() {
    let source = "1 +\n\n2";
    let mut lexer = Lexer::new(source);
    let mut compiler = Compiler::new(lexer.lexing(), source, Chunk::new(DEFAULT_CAPACITY));
    assert!(compiler.compile(&HostFloats).is_some());
    let chunk = compiler.into_chunk();
    let second = INSTRUCTION_SIZE + VALUE_SIZE;
    assert_eq!(chunk.read_value(INSTRUCTION_SIZE).map(|r| r.1), Some(1));
    assert_eq!(chunk.read_value(second + INSTRUCTION_SIZE).map(|r| r.1), Some(3));
    assert_eq!(chunk.read_opcode(second).map(|r| r.1), Some(3));
}

#[test]
fn vm_binary_operations() {
    let mut chunk = Chunk::new(1);
    chunk.add_value(Value::Integer(90), 0);
    chunk.add_value(Value::Integer(90), 0);
    chunk.add_opcode(OpCode::Add, 0);
    chunk.add_value(Value::Integer(4), 0);
    chunk.add_opcode(OpCode::Multiply, 0);
    let mut vm = VM::new(&chunk);
    vm.run(&HostFloats).unwrap();
    assert_eq!(vm.get_stack()[0], Value::Integer(180 * 4));
}

#[test]
fn vm_negate() {
    let mut chunk = Chunk::new(1);
    chunk.add_value(Value::Integer(90), 0);
    chunk.add_opcode(OpCode::Negate, 0);
    chunk.add_value(Value::Boolean(false), 0);
    chunk.add_opcode(OpCode::Negate, 0);
    let mut vm = VM::new(&chunk);
    vm.run(&HostFloats).unwrap();
    assert_eq!(vm.get_stack(), [Value::Integer(-90), Value::Boolean(true)]);
}

#[test]
fn vm_two_integers_add_to_one() {
    let mut chunk = Chunk::new(DEFAULT_CAPACITY);
    chunk.add_value(Value::Integer(2), 1);
    chunk.add_value(Value::Integer(3), 1);
    chunk.add_opcode(OpCode::Add, 1);
    let mut vm = VM::new(&chunk);
    assert!(vm.run(&HostFloats).is_ok());
    assert_eq!(vm.get_stack(), [Value::Integer(5)]);
}

#[test]
fn vm_negate_empty_stack_is_error() {
    let mut chunk = Chunk::new(DEFAULT_CAPACITY);
    chunk.add_opcode(OpCode::Negate, 4);
    let mut vm = VM::new(&chunk);
    let err = vm.run(&HostFloats).unwrap_err();
    assert_eq!(err.kind, VmError::StackUnderflow);
    assert_eq!(err.line, 4);
}

#[test]
fn vm_print_pops_into_output() {
    let mut chunk = Chunk::new(DEFAULT_CAPACITY);
    chunk.add_value(Value::Integer(1), 1);
    chunk.add_value(Value::Integer(2), 1);
    chunk.add_opcode(OpCode::Print, 1);
    chunk.add_opcode(OpCode::Return, 1);
    let mut vm = VM::new(&chunk);
    assert!(vm.run(&HostFloats).is_ok());
    assert_eq!(vm.printed(), [Value::Integer(2)]);
    assert_eq!(vm.get_stack(), [Value::Integer(1)]);
}

#[test]
fn float_bit_comparisons() {
    assert!(float_equal(0.0f64.to_bits(), (-0.0f64).to_bits()));
    assert!(!float_equal(f64::NAN.to_bits(), f64::NAN.to_bits()));
    assert!(float_less((-1.0f64).to_bits(), 0.5f64.to_bits()));
    assert!(float_less((-3.0f64).to_bits(), (-2.0f64).to_bits()));
    assert!(!float_less(f64::NAN.to_bits(), 1.0f64.to_bits()));
}

#[test]
fn string_hash_is_fnv1a() {
    let s = ObjString::new(b"a".to_vec());
    assert_eq!(s.get_hash(), 0xaf63dc4c8601ec8c);
    assert_eq!(ObjString::compute_hash(&Vec::new()), 14695981039346656037);
    let joined = ObjString::new(b"foo".to_vec()).add(&ObjString::new(b"bar".to_vec()));
    assert_eq!(joined.get_data(), &b"foobar".to_vec());
    assert!(joined.same_as(&ObjString::new(b"foobar".to_vec())));
}

#[test]
fn integer_literals() {
    assert_eq!(parse_integer(b"9223372036854775807"), Some(i64::MAX));
    assert_eq!(parse_integer(b"9223372036854775808"), None);
    assert_eq!(parse_integer(b"12a"), None);
    assert_eq!(parse_integer(b""), None);
}

#[test]
fn precedence_ladder() {
    assert_eq!(Precedence::TERM.next(), Precedence::FACTOR);
    assert_eq!(Precedence::PRIMARY.next(), Precedence::PRIMARY);
    assert_eq!(Precedence::NONE.level(), 0);
}

#[test]
fn listing_shows_each_record() {
    let mut chunk = Chunk::new(2);
    chunk.add_value(Value::Integer(5), 1);
    chunk.add_opcode(OpCode::Negate, 2);
    let listing = disassemble(&chunk);
    assert_eq!(listing.len(), 2);
    assert_eq!(listing[0].offset, 0);
    assert_eq!(listing[0].op, OpCode::Constant);
    assert_eq!(listing[0].value, Some(Value::Integer(5)));
    assert_eq!(listing[1].offset, INSTRUCTION_SIZE + VALUE_SIZE);
    assert_eq!(listing[1].op, OpCode::Negate);
    assert_eq!(listing[1].line, 2);
    assert_eq!(listing[1].value, None);
}

#[test]
fn chunk_capacity_doubles() {
    let mut chunk = Chunk::new(3);
    chunk.add_opcode(OpCode::Return, 1);
    assert_eq!(chunk.capacity(), 6);
    chunk.add_value(Value::Null, 1);
    assert_eq!(chunk.capacity(), 24);
    assert!(chunk.size() <= chunk.capacity());
    assert_eq!(Chunk::new(0).capacity(), 1);
}

#[test]
fn first_compile_error_is_kept() {
    let source = "( 1 2";
    let mut lexer = Lexer::new(source);
    let mut compiler = Compiler::new(lexer.lexing(), source, Chunk::new(DEFAULT_CAPACITY));
    assert!(compiler.compile(&HostFloats).is_none());
    let e = compiler.first_error().unwrap();
    assert_eq!(e.message, CompileMessage::ExpectedRightParen);
    assert_eq!(e.lexeme, Some((2, 3)));
    assert_eq!(e.line, 1);
}
