use vstd::prelude::*;
use vstd::string::StringSliceAdditionalSpecFns;
use vstd::slice::{slice_subrange, slice_to_vec};

use crate::chunk::{Chunk, Instr, INSTRUCTION_SIZE, VALUE_SIZE};
use crate::lexer::{is_digit, tokens_well_formed};
use crate::opcode::OpCode;
use crate::precedence::{next_spec, rank, Precedence};
use crate::token::{Token, TokenType};
use crate::value::{FloatArith, ObjString, Value, ValueView};

verus! {

/// How a token begins an expression.
#[derive(Debug, Clone, Copy, PartialEq, Eq, Structural)]
pub enum PrefixRule {
    Grouping,
    Unary,
    Number,
    Text,
    Literal,
}

/// How a token continues an expression.
#[derive(Debug, Clone, Copy, PartialEq, Eq, Structural)]
pub enum InfixRule {
    Binary,
}

/// The parse rule of a token kind.
#[derive(Debug, Clone, Copy, PartialEq, Eq, Structural)]
pub struct ParseRule {
    pub prefix: Option<PrefixRule>,
    pub infix: Option<InfixRule>,
    pub precedence: Precedence,
}

pub fn rule(prefix: Option<PrefixRule>, infix: Option<InfixRule>, precedence: Precedence) -> (r: ParseRule)
    ensures
        r == (ParseRule { prefix, infix, precedence }),
{
    ParseRule { prefix, infix, precedence }
}

/// The rule table.
pub open spec fn rule_of(k: TokenType) -> ParseRule {
    match k {
        TokenType::LeftParent => ParseRule {
            prefix: Some(PrefixRule::Grouping),
            infix: None,
            precedence: Precedence::NONE,
        },
        TokenType::Minus => ParseRule {
            prefix: Some(PrefixRule::Unary),
            infix: Some(InfixRule::Binary),
            precedence: Precedence::TERM,
        },
        TokenType::Plus => ParseRule {
            prefix: None,
            infix: Some(InfixRule::Binary),
            precedence: Precedence::TERM,
        },
        TokenType::Slash | TokenType::Star => ParseRule {
            prefix: None,
            infix: Some(InfixRule::Binary),
            precedence: Precedence::FACTOR,
        },
        TokenType::Bang => ParseRule {
            prefix: Some(PrefixRule::Unary),
            infix: None,
            precedence: Precedence::NONE,
        },
        TokenType::BangEqual | TokenType::EqualEqual => ParseRule {
            prefix: None,
            infix: Some(InfixRule::Binary),
            precedence: Precedence::EQUALITY,
        },
        TokenType::Greater | TokenType::GreaterEqual | TokenType::Less | TokenType::LessEqual => ParseRule {
            prefix: None,
            infix: Some(InfixRule::Binary),
            precedence: Precedence::COMPARISON,
        },
        TokenType::Text => ParseRule {
            prefix: Some(PrefixRule::Text),
            infix: None,
            precedence: Precedence::NONE,
        },
        TokenType::Integer | TokenType::Float => ParseRule {
            prefix: Some(PrefixRule::Number),
            infix: None,
            precedence: Precedence::NONE,
        },
        TokenType::False | TokenType::True | TokenType::Null => ParseRule {
            prefix: Some(PrefixRule::Literal),
            infix: None,
            precedence: Precedence::NONE,
        },
        _ => ParseRule { prefix: None, infix: None, precedence: Precedence::NONE },
    }
}

/// What the compiler emits, as its contract sees it: an opcode, a constant, or a
/// float constant whose bits the host computes.
pub enum Emit {
    Op { op: OpCode, line: u32 },
    Lit { value: ValueView, line: u32 },
    FloatLit { line: u32 },
}

/// Whether a chunk record is what was to be emitted.
pub open spec fn emit_matches(r: Instr, e: Emit) -> bool {
    match e {
        Emit::Op { op, line } => r == Instr::Op { op, line },
        Emit::Lit { value, line } => r == Instr::Const { value, line },
        Emit::FloatLit { line } => r matches Instr::Const { value: ValueView::Float(_), line: l } && l == line,
    }
}

pub open spec fn all_match(rs: Seq<Instr>, es: Seq<Emit>) -> bool {
    rs.len() == es.len() && forall|k: int| 0 <= k < rs.len() ==> emit_matches(#[trigger] rs[k], es[k])
}

/// The value of a string of decimal digits.
pub open spec fn digits_value(s: Seq<u8>) -> int
    decreases s.len(),
{
    if s.len() == 0 {
        0
    } else {
        digits_value(s.drop_last()) * 10 + (s.last() - 0x30)
    }
}

/// A decimal integer literal: one or more digits whose value fits in an `i64`.
pub open spec fn int_literal(s: Seq<u8>) -> Option<i64> {
    if s.len() >= 1 && (forall|k: int| 0 <= k < s.len() ==> is_digit(#[trigger] s[k])) && digits_value(s)
        <= i64::MAX {
        Some(digits_value(s) as i64)
    } else {
        None
    }
}

/// The constant that a literal token stands for; `None` for an integer that does not
/// fit and for tokens that are no literal.
pub open spec fn literal_emit(src: Seq<u8>, t: Token) -> Option<Emit> {
    let s = t.range.0 as int;
    let e = t.range.1 as int;
    match t.token_type {
        TokenType::Integer => match int_literal(src.subrange(s, e)) {
            Some(v) => Some(Emit::Lit { value: ValueView::Integer(v), line: t.line }),
            None => None,
        },
        TokenType::Float => Some(Emit::FloatLit { line: t.line }),
        TokenType::Text => Some(Emit::Lit { value: ValueView::Object(src.subrange(s + 1, e - 1)), line: t.line }),
        TokenType::True => Some(Emit::Lit { value: ValueView::Boolean(true), line: t.line }),
        TokenType::False => Some(Emit::Lit { value: ValueView::Boolean(false), line: t.line }),
        TokenType::Null => Some(Emit::Lit { value: ValueView::Null, line: t.line }),
        _ => None,
    }
}

/// The opcodes of a binary operator: `!=`, `>=` and `<=` are negations of `==`, `<`, `>`.
pub open spec fn binary_emit(t: Token) -> Option<Seq<Emit>> {
    let l = t.line;
    match t.token_type {
        TokenType::BangEqual => Some(seq![Emit::Op { op: OpCode::Equal, line: l }, Emit::Op { op: OpCode::Negate, line: l }]),
        TokenType::EqualEqual => Some(seq![Emit::Op { op: OpCode::Equal, line: l }]),
        TokenType::Greater => Some(seq![Emit::Op { op: OpCode::Greater, line: l }]),
        TokenType::GreaterEqual => Some(seq![Emit::Op { op: OpCode::Less, line: l }, Emit::Op { op: OpCode::Negate, line: l }]),
        TokenType::Less => Some(seq![Emit::Op { op: OpCode::Less, line: l }]),
        TokenType::LessEqual => Some(seq![Emit::Op { op: OpCode::Greater, line: l }, Emit::Op { op: OpCode::Negate, line: l }]),
        TokenType::Plus => Some(seq![Emit::Op { op: OpCode::Add, line: l }]),
        TokenType::Minus => Some(seq![Emit::Op { op: OpCode::Subtract, line: l }]),
        TokenType::Star => Some(seq![Emit::Op { op: OpCode::Multiply, line: l }]),
        TokenType::Slash => Some(seq![Emit::Op { op: OpCode::Divide, line: l }]),
        _ => None,
    }
}

/// The expression whose first token is token `i`, parsed by its prefix rule: the index
/// of the token after it and what it emits.
pub open spec fn parse_prefix(ts: Seq<Token>, src: Seq<u8>, i: int) -> Option<(int, Seq<Emit>)>
    decreases ts.len() - i, 1int,
{
    if i < 0 || i >= ts.len() {
        None
    } else {
        let t = ts[i];
        match rule_of(t.token_type).prefix {
            Some(PrefixRule::Grouping) => match parse_expr(ts, src, i + 1, Precedence::ASSIGNMENT) {
                Some((j, e)) => if 0 <= j < ts.len() && ts[j].token_type == TokenType::RightParent {
                    Some((j + 1, e))
                } else {
                    None
                },
                None => None,
            },
            Some(PrefixRule::Unary) => match parse_expr(ts, src, i + 1, Precedence::UNARY) {
                Some((j, e)) => Some((j, e.push(Emit::Op { op: OpCode::Negate, line: t.line }))),
                None => None,
            },
            Some(_) => match literal_emit(src, t) {
                Some(l) => Some((i + 1, seq![l])),
                None => None,
            },
            None => None,
        }
    }
}

/// The expression that starts at token `i` and binds operators of precedence `p` and
/// tighter, left to right.
pub open spec fn parse_expr(ts: Seq<Token>, src: Seq<u8>, i: int, p: Precedence) -> Option<(int, Seq<Emit>)>
    decreases ts.len() - i, 2int,
{
    if i < 0 || i >= ts.len() {
        None
    } else {
        match parse_prefix(ts, src, i) {
            Some((j, e)) => if i < j <= ts.len() {
                infix_loop(ts, src, j, p, e)
            } else {
                None
            },
            None => None,
        }
    }
}

/// Continues an expression whose code so far is `acc` with the infix operators from
/// token `j` on, while they bind at least as tightly as `p`.
pub open spec fn infix_loop(ts: Seq<Token>, src: Seq<u8>, j: int, p: Precedence, acc: Seq<Emit>) -> Option<(int, Seq<Emit>)>
    decreases ts.len() - j, 3int,
{
    if 0 <= j < ts.len() && rank(rule_of(ts[j].token_type).precedence) >= rank(p) {
        let op = ts[j];
        match rule_of(op.token_type).infix {
            Some(InfixRule::Binary) => match parse_expr(ts, src, j + 1, next_spec(rule_of(op.token_type).precedence)) {
                Some((k, e2)) => match binary_emit(op) {
                    Some(ops) => if j < k <= ts.len() {
                        infix_loop(ts, src, k, p, acc + e2 + ops)
                    } else {
                        None
                    },
                    None => None,
                },
                None => None,
            },
            None => None,
        }
    } else {
        Some((j, acc))
    }
}

/// What compiling a token sequence emits: one expression, then `EndOfFile`.
pub open spec fn compile_spec(ts: Seq<Token>, src: Seq<u8>) -> Option<Seq<Emit>> {
    match parse_expr(ts, src, 0, Precedence::ASSIGNMENT) {
        Some((j, e)) => if 0 <= j < ts.len() && ts[j].token_type == TokenType::EndOfFile {
            Some(e)
        } else {
            None
        },
        None => None,
    }
}

proof fn lemma_infix_mono(ts: Seq<Token>, src: Seq<u8>, j: int, p: Precedence, acc: Seq<Emit>)
    requires
        0 <= j <= ts.len(),
    ensures
        infix_loop(ts, src, j, p, acc) matches Some((k, _)) ==> j <= k <= ts.len(),
    decreases ts.len() - j,
{
    if 0 <= j < ts.len() && rank(rule_of(ts[j].token_type).precedence) >= rank(p) {
        let op = ts[j];
        if let Some(InfixRule::Binary) = rule_of(op.token_type).infix {
            if let Some((k, e2)) = parse_expr(ts, src, j + 1, next_spec(rule_of(op.token_type).precedence)) {
                if let Some(ops) = binary_emit(op) {
                    if j < k <= ts.len() {
                        lemma_infix_mono(ts, src, k, p, acc + e2 + ops);
                    }
                }
            }
        }
    }
}

proof fn lemma_expr_progress(ts: Seq<Token>, src: Seq<u8>, i: int, p: Precedence)
    ensures
        parse_expr(ts, src, i, p) matches Some((j, _)) ==> i < j <= ts.len(),
{
    if 0 <= i < ts.len() {
        if let Some((j, e)) = parse_prefix(ts, src, i) {
            if i < j <= ts.len() {
                lemma_infix_mono(ts, src, j, p, e);
            }
        }
    }
}

proof fn lemma_prefix_progress(ts: Seq<Token>, src: Seq<u8>, i: int)
    ensures
        parse_prefix(ts, src, i) matches Some((j, _)) ==> i < j <= ts.len(),
{
    lemma_expr_progress(ts, src, i + 1, Precedence::ASSIGNMENT);
    lemma_expr_progress(ts, src, i + 1, Precedence::UNARY);
}

proof fn lemma_all_match_concat(a: Seq<Instr>, x: Seq<Emit>, b: Seq<Instr>, y: Seq<Emit>)
    requires
        all_match(a, x),
        all_match(b, y),
    ensures
        all_match(a + b, x + y),
{
    assert forall|k: int| 0 <= k < (a + b).len() implies emit_matches(#[trigger] (a + b)[k], (x + y)[k]) by {
        if k < a.len() {
            assert(emit_matches(a[k], x[k]));
        } else {
            assert(emit_matches(b[k - a.len()], y[k - a.len()]));
        }
    }
}

proof fn lemma_digits_nonneg(s: Seq<u8>)
    requires
        forall|k: int| 0 <= k < s.len() ==> is_digit(#[trigger] s[k]),
    ensures
        digits_value(s) >= 0,
    decreases s.len(),
{
    if s.len() > 0 {
        lemma_digits_nonneg(s.drop_last());
        assert(is_digit(s[s.len() - 1]));
    }
}

proof fn lemma_digits_mono(s: Seq<u8>, m: int)
    requires
        0 <= m <= s.len(),
        forall|k: int| 0 <= k < s.len() ==> is_digit(#[trigger] s[k]),
    ensures
        digits_value(s.subrange(0, m)) <= digits_value(s),
    decreases s.len(),
{
    if m < s.len() {
        let pre = s.drop_last();
        lemma_digits_mono(pre, m);
        assert(pre.subrange(0, m) == s.subrange(0, m));
        lemma_digits_nonneg(pre);
        assert(is_digit(s[s.len() - 1]));
    } else {
        assert(s.subrange(0, m) == s);
    }
}

/// The value of a decimal integer literal, or `None` where it is not all digits or does
/// not fit in an `i64`.
pub fn parse_integer(digits: &[u8]) -> (r: Option<i64>)
    ensures
        r == int_literal(digits@),
{
    if digits.len() == 0 {
        return None;
    }
    let mut i: usize = 0;
    while i < digits.len()
        invariant
            i <= digits@.len(),
            forall|k: int| 0 <= k < i ==> is_digit(#[trigger] digits@[k]),
        decreases digits@.len() - i,
    {
        if digits[i] < 0x30 || digits[i] > 0x39 {
            return None;
        }
        i = i + 1;
    }
    let mut value: i64 = 0;
    let mut i: usize = 0;
    while i < digits.len()
        invariant
            i <= digits@.len(),
            forall|k: int| 0 <= k < digits@.len() ==> is_digit(#[trigger] digits@[k]),
            value == digits_value(digits@.subrange(0, i as int)),
        decreases digits@.len() - i,
    {
        let d: i64 = (digits[i] - 0x30) as i64;
        proof {
            assert(is_digit(digits@[i as int]));
            let s = digits@.subrange(0, i + 1);
            assert(s.drop_last() == digits@.subrange(0, i as int));
        }
        if value > (i64::MAX - d) / 10 {
            proof {
                lemma_digits_mono(digits@, i + 1);
                assert(value * 10 + d > i64::MAX) by (nonlinear_arith)
                    requires
                        value > (i64::MAX - d) / 10,
                        0 <= d <= 9,
                ;
            }
            return None;
        }
        proof {
            lemma_digits_nonneg(digits@.subrange(0, i as int));
            assert(value * 10 + d <= i64::MAX) by (nonlinear_arith)
                requires
                    value <= (i64::MAX - d) / 10,
                    0 <= d <= 9,
                    value >= 0,
            ;
        }
        value = value * 10 + d;
        i = i + 1;
    }
    proof {
        assert(digits@.subrange(0, i as int) == digits@);
    }
    Some(value)
}

/// Appends `op` at `line`.
pub fn write_opcode(chunk: &mut Chunk, op: OpCode, line: u32)
    requires
        old(chunk).wf(),
        op != OpCode::Constant,
        old(chunk).bytes().len() + INSTRUCTION_SIZE <= usize::MAX,
    ensures
        final(chunk).wf(),
        final(chunk)@ == old(chunk)@.push(Instr::Op { op, line }),
        final(chunk).bytes().len() == old(chunk).bytes().len() + INSTRUCTION_SIZE,
{
    proof {
        vstd::bytes::lemma_auto_spec_u32_to_from_le_bytes();
    }
    chunk.add_opcode(op, line);
}

/// Appends `first` then `second`, both at `line`.
pub fn write_opcodes(chunk: &mut Chunk, first: OpCode, second: OpCode, line: u32)
    requires
        old(chunk).wf(),
        first != OpCode::Constant,
        second != OpCode::Constant,
        old(chunk).bytes().len() + 2 * INSTRUCTION_SIZE <= usize::MAX,
    ensures
        final(chunk).wf(),
        final(chunk)@ == old(chunk)@.push(Instr::Op { op: first, line }).push(Instr::Op { op: second, line }),
        final(chunk).bytes().len() == old(chunk).bytes().len() + 2 * INSTRUCTION_SIZE,
{
    write_opcode(chunk, first, line);
    write_opcode(chunk, second, line);
}

/// Appends the constant that a literal token stands for, at the token's line. Returns
/// false, appending nothing, where the token is no literal or its integer does not fit.
pub fn write_value<F: FloatArith>(chunk: &mut Chunk, token: &Token, source: &[u8], floats: &F) -> (r: bool)
    requires
        old(chunk).wf(),
        token.range.0 <= token.range.1 <= source@.len(),
        token.token_type == TokenType::Text ==> token.range.0 + 2 <= token.range.1,
        old(chunk).bytes().len() + INSTRUCTION_SIZE + VALUE_SIZE <= usize::MAX,
    ensures
        final(chunk).wf(),
        r == literal_emit(source@, *token) is Some,
        final(chunk).bytes().len() <= old(chunk).bytes().len() + INSTRUCTION_SIZE + VALUE_SIZE,
        match literal_emit(source@, *token) {
            Some(e) => final(chunk)@.len() == old(chunk)@.len() + 1 && final(chunk)@.drop_last() == old(
                chunk,
            )@ && emit_matches(final(chunk)@.last(), e),
            None => final(chunk)@ == old(chunk)@ && final(chunk).bytes() == old(chunk).bytes(),
        },
{
    proof {
        vstd::bytes::lemma_auto_spec_u32_to_from_le_bytes();
        vstd::bytes::lemma_auto_spec_u64_to_from_le_bytes();
    }
    let start = token.range.0 as usize;
    let end = token.range.1 as usize;
    let value = match token.token_type {
        TokenType::Integer => match parse_integer(slice_subrange(source, start, end)) {
            Some(v) => Value::Integer(v),
            None => {
                return false;
            },
        },
        TokenType::Float => Value::Float(floats.parse_float(slice_subrange(source, start, end))),
        TokenType::Text => Value::Object(ObjString::new(slice_to_vec(slice_subrange(source, start + 1, end - 1)))),
        TokenType::True => Value::Boolean(true),
        TokenType::False => Value::Boolean(false),
        TokenType::Null => Value::Null,
        _ => {
            return false;
        },
    };
    chunk.add_value(value, token.line);
    proof {
        assert(chunk@.drop_last() == old(chunk)@);
    }
    true
}

proof fn lemma_extend(a: Seq<Instr>, b: Seq<Instr>, c: Seq<Instr>, x: Seq<Emit>, y: Seq<Emit>)
    requires
        a.len() <= b.len() <= c.len(),
        b.subrange(0, a.len() as int) == a,
        c.subrange(0, b.len() as int) == b,
        all_match(b.subrange(a.len() as int, b.len() as int), x),
        all_match(c.subrange(b.len() as int, c.len() as int), y),
    ensures
        c.subrange(0, a.len() as int) == a,
        all_match(c.subrange(a.len() as int, c.len() as int), x + y),
{
    assert(c.subrange(0, a.len() as int) == b.subrange(0, a.len() as int));
    assert(c.subrange(a.len() as int, b.len() as int) == b.subrange(a.len() as int, b.len() as int));
    lemma_all_match_concat(
        c.subrange(a.len() as int, b.len() as int),
        x,
        c.subrange(b.len() as int, c.len() as int),
        y,
    );
    assert(c.subrange(a.len() as int, b.len() as int) + c.subrange(b.len() as int, c.len() as int)
        =~= c.subrange(a.len() as int, c.len() as int));
}

/// The parse rule of a token kind.
pub fn get_rule(kind: TokenType) -> (r: ParseRule)
    ensures
        r == rule_of(kind),
{
    match kind {
        TokenType::LeftParent => rule(Some(PrefixRule::Grouping), None, Precedence::NONE),
        TokenType::Minus => rule(Some(PrefixRule::Unary), Some(InfixRule::Binary), Precedence::TERM),
        TokenType::Plus => rule(None, Some(InfixRule::Binary), Precedence::TERM),
        TokenType::Slash | TokenType::Star => rule(None, Some(InfixRule::Binary), Precedence::FACTOR),
        TokenType::Bang => rule(Some(PrefixRule::Unary), None, Precedence::NONE),
        TokenType::BangEqual | TokenType::EqualEqual => rule(None, Some(InfixRule::Binary), Precedence::EQUALITY),
        TokenType::Greater | TokenType::GreaterEqual | TokenType::Less | TokenType::LessEqual => rule(
            None,
            Some(InfixRule::Binary),
            Precedence::COMPARISON,
        ),
        TokenType::Text => rule(Some(PrefixRule::Text), None, Precedence::NONE),
        TokenType::Integer | TokenType::Float => rule(Some(PrefixRule::Number), None, Precedence::NONE),
        TokenType::False | TokenType::True | TokenType::Null => rule(Some(PrefixRule::Literal), None, Precedence::NONE),
        _ => rule(None, None, Precedence::NONE),
    }
}

/// What the operand and the opcodes of a binary operator at token `c - 1` give.
pub open spec fn binary_spec(ts: Seq<Token>, src: Seq<u8>, c: int, t: Token) -> Option<(int, Seq<Emit>)> {
    match parse_expr(ts, src, c, next_spec(rule_of(t.token_type).precedence)) {
        Some((k, e2)) => match binary_emit(t) {
            Some(ops) => Some((k, e2 + ops)),
            None => None,
        },
        None => None,
    }
}

/// A token that the compiler turns into one constant.
pub open spec fn is_literal_token(src: Seq<u8>, t: Token) -> bool {
    &&& rule_of(t.token_type).prefix matches Some(r) && r != PrefixRule::Grouping && r != PrefixRule::Unary
    &&& literal_emit(src, t) is Some
}

/// A binary operator token.
pub open spec fn is_binary_token(t: Token) -> bool {
    rule_of(t.token_type).infix == Some(InfixRule::Binary)
}

/// An expression tree over tokens.
pub enum Expr {
    Atom(Token),
    Neg(Token, Box<Expr>),
    Group(Token, Box<Expr>, Token),
    Bin(Box<Expr>, Token, Box<Expr>),
}

/// How tightly an expression holds together: the precedence rank of its operator.
pub open spec fn level(e: Expr) -> nat {
    match e {
        Expr::Atom(_) => rank(Precedence::PRIMARY),
        Expr::Neg(_, _) => rank(Precedence::UNARY),
        Expr::Group(_, _, _) => rank(Precedence::PRIMARY),
        Expr::Bin(_, op, _) => rank(rule_of(op.token_type).precedence),
    }
}

/// A tree that follows the rule table: an operand of a binary operator binds at least
/// as tightly on the left and strictly more tightly on the right, so that operators of
/// one precedence group from the left; an operand of a negation is itself a prefix
/// expression.
pub open spec fn well_formed(e: Expr, src: Seq<u8>) -> bool
    decreases e,
{
    match e {
        Expr::Atom(t) => is_literal_token(src, t),
        Expr::Neg(t, x) => rule_of(t.token_type).prefix == Some(PrefixRule::Unary) && level(*x) >= rank(
            Precedence::UNARY,
        ) && well_formed(*x, src),
        Expr::Group(lp, x, rp) => lp.token_type == TokenType::LeftParent && rp.token_type == TokenType::RightParent
            && well_formed(*x, src),
        Expr::Bin(l, op, r) => is_binary_token(op) && level(*l) >= level(e) && level(*r) > level(e)
            && well_formed(*l, src) && well_formed(*r, src),
    }
}

/// The tokens of a tree, in source order.
pub open spec fn expr_tokens(e: Expr) -> Seq<Token>
    decreases e,
{
    match e {
        Expr::Atom(t) => seq![t],
        Expr::Neg(t, x) => seq![t] + expr_tokens(*x),
        Expr::Group(lp, x, rp) => seq![lp] + expr_tokens(*x) + seq![rp],
        Expr::Bin(l, op, r) => expr_tokens(*l) + seq![op] + expr_tokens(*r),
    }
}

/// The code of a tree in evaluation order: operands first, then their operator.
pub open spec fn expr_code(e: Expr, src: Seq<u8>) -> Seq<Emit>
    decreases e,
{
    match e {
        Expr::Atom(t) => seq![literal_emit(src, t)->Some_0],
        Expr::Neg(t, x) => expr_code(*x, src).push(Emit::Op { op: OpCode::Negate, line: t.line }),
        Expr::Group(_, x, _) => expr_code(*x, src),
        Expr::Bin(l, op, r) => expr_code(*l, src) + expr_code(*r, src) + binary_emit(op)->Some_0,
    }
}

proof fn lemma_expr_tokens_len(e: Expr)
    ensures
        expr_tokens(e).len() >= 1,
    decreases e,
{
    match e {
        Expr::Atom(_) => {},
        Expr::Neg(_, x) => lemma_expr_tokens_len(*x),
        Expr::Group(_, x, _) => lemma_expr_tokens_len(*x),
        Expr::Bin(l, _, r) => {
            lemma_expr_tokens_len(*l);
            lemma_expr_tokens_len(*r);
        },
    }
}

/// Parsing from the first token of `e` parses `e` whole and then goes on after it.
proof fn lemma_parse_tree(ts: Seq<Token>, src: Seq<u8>, e: Expr, i: int, p: Precedence)
    requires
        well_formed(e, src),
        0 <= i,
        i + expr_tokens(e).len() < ts.len(),
        ts.subrange(i, i + expr_tokens(e).len()) == expr_tokens(e),
        1 <= rank(p) <= level(e),
        e is Bin ==> rank(rule_of(ts[i + expr_tokens(e).len()].token_type).precedence) <= level(e),
    ensures
        parse_expr(ts, src, i, p) == infix_loop(ts, src, i + expr_tokens(e).len(), p, expr_code(e, src)),
    decreases e,
{
    let n = expr_tokens(e).len() as int;
    lemma_expr_tokens_len(e);
    assert(ts[i] == expr_tokens(e)[0]);
    match e {
        Expr::Atom(t) => {
            assert(parse_prefix(ts, src, i) == Some((i + 1, seq![literal_emit(src, t)->Some_0])));
        },
        Expr::Neg(t, x) => {
            let m = expr_tokens(*x).len() as int;
            lemma_expr_tokens_len(*x);
            assert(ts.subrange(i + 1, i + 1 + m) =~= expr_tokens(e).subrange(1, 1 + m));
            assert(expr_tokens(e).subrange(1, 1 + m) =~= expr_tokens(*x));
            assert(!(*x is Bin)) by {
                if let Expr::Bin(_, op, _) = *x {
                    assert(rank(rule_of(op.token_type).precedence) <= 7);
                }
            }
            lemma_parse_tree(ts, src, *x, i + 1, Precedence::UNARY);
            assert(rank(rule_of(ts[i + n].token_type).precedence) <= 7);
            assert(infix_loop(ts, src, i + n, Precedence::UNARY, expr_code(*x, src)) == Some((i + n, expr_code(*x, src))));
            assert(parse_prefix(ts, src, i) == Some((i + n, expr_code(e, src))));
        },
        Expr::Group(lp, x, rp) => {
            let m = expr_tokens(*x).len() as int;
            lemma_expr_tokens_len(*x);
            assert(ts.subrange(i + 1, i + 1 + m) =~= expr_tokens(e).subrange(1, 1 + m));
            assert(expr_tokens(e).subrange(1, 1 + m) =~= expr_tokens(*x));
            assert(ts[i + 1 + m] == expr_tokens(e)[1 + m]);
            assert(ts[i + 1 + m] == rp);
            assert(level(*x) >= 1) by {
                reveal_with_fuel(well_formed, 2);
                if let Expr::Bin(_, op, _) = *x {
                    assert(is_binary_token(op));
                    assert(rank(rule_of(op.token_type).precedence) >= 4);
                }
            }
            lemma_parse_tree(ts, src, *x, i + 1, Precedence::ASSIGNMENT);
            assert(infix_loop(ts, src, i + 1 + m, Precedence::ASSIGNMENT, expr_code(*x, src)) == Some(
                (i + 1 + m, expr_code(*x, src)),
            ));
            assert(parse_prefix(ts, src, i) == Some((i + n, expr_code(e, src))));
        },
        Expr::Bin(l, op, r) => {
            let a = expr_tokens(*l).len() as int;
            let b = expr_tokens(*r).len() as int;
            lemma_expr_tokens_len(*l);
            lemma_expr_tokens_len(*r);
            let q = rule_of(op.token_type).precedence;
            assert(2 <= rank(q) <= 7);
            assert(ts.subrange(i, i + a) =~= expr_tokens(e).subrange(0, a));
            assert(expr_tokens(e).subrange(0, a) =~= expr_tokens(*l));
            assert(ts[i + a] == expr_tokens(e)[a]);
            assert(ts[i + a] == op);
            assert(ts.subrange(i + a + 1, i + a + 1 + b) =~= expr_tokens(e).subrange(a + 1, a + 1 + b));
            assert(expr_tokens(e).subrange(a + 1, a + 1 + b) =~= expr_tokens(*r));
            lemma_parse_tree(ts, src, *l, i, p);
            lemma_parse_tree(ts, src, *r, i + a + 1, next_spec(q));
            assert(rank(next_spec(q)) == rank(q) + 1);
            assert(infix_loop(ts, src, i + n, next_spec(q), expr_code(*r, src)) == Some((i + n, expr_code(*r, src))));
            assert(binary_emit(op) is Some);
            assert(infix_loop(ts, src, i + a, p, expr_code(*l, src)) == infix_loop(
                ts,
                src,
                i + n,
                p,
                expr_code(*l, src) + expr_code(*r, src) + binary_emit(op)->Some_0,
            ));
        },
    }
}

/// Operators group as the rule table says: for every tree that follows the rule table,
/// compiling its tokens followed by `EndOfFile` succeeds and emits the tree's code,
/// operands before operators.
pub proof fn lemma_precedence(src: Seq<u8>, e: Expr, end: Token)
    requires
        well_formed(e, src),
        end.token_type == TokenType::EndOfFile,
    ensures
        compile_spec(expr_tokens(e).push(end), src) == Some(expr_code(e, src)),
{
    let ts = expr_tokens(e).push(end);
    let n = expr_tokens(e).len() as int;
    assert(ts.subrange(0, n) =~= expr_tokens(e));
    assert(ts[n] == end);
    lemma_parse_tree(ts, src, e, 0, Precedence::ASSIGNMENT);
    assert(infix_loop(ts, src, n, Precedence::ASSIGNMENT, expr_code(e, src)) == Some((n, expr_code(e, src))));
}

/// A constant of the code carries the line of a literal token of the input.
pub open spec fn line_from_literal(x: Emit, ts: Seq<Token>) -> bool {
    match x {
        Emit::Op { .. } => true,
        Emit::Lit { line, .. } => exists|j: int| 0 <= j < ts.len() && is_literal_kind(#[trigger] ts[j]) && ts[j].line == line,
        Emit::FloatLit { line } => exists|j: int| 0 <= j < ts.len() && is_literal_kind(#[trigger] ts[j]) && ts[j].line == line,
    }
}

pub open spec fn is_literal_kind(t: Token) -> bool {
    rule_of(t.token_type).prefix matches Some(r) && r != PrefixRule::Grouping && r != PrefixRule::Unary
}

pub open spec fn lines_from_literals(e: Seq<Emit>, ts: Seq<Token>) -> bool {
    forall|k: int| 0 <= k < e.len() ==> line_from_literal(#[trigger] e[k], ts)
}

proof fn lemma_lines_concat(a: Seq<Emit>, b: Seq<Emit>, ts: Seq<Token>)
    requires
        lines_from_literals(a, ts),
        lines_from_literals(b, ts),
    ensures
        lines_from_literals(a + b, ts),
{
    assert forall|k: int| 0 <= k < (a + b).len() implies line_from_literal(#[trigger] (a + b)[k], ts) by {
        if k < a.len() {
            assert((a + b)[k] == a[k]);
        } else {
            assert((a + b)[k] == b[k - a.len()]);
        }
    }
}

proof fn lemma_ops_lines(t: Token, ts: Seq<Token>)
    ensures
        binary_emit(t) matches Some(ops) ==> lines_from_literals(ops, ts),
{
}

proof fn lemma_prefix_lines(ts: Seq<Token>, src: Seq<u8>, i: int)
    ensures
        parse_prefix(ts, src, i) matches Some((_, e)) ==> lines_from_literals(e, ts),
    decreases ts.len() - i, 1int,
{
    if 0 <= i < ts.len() {
        let t = ts[i];
        match rule_of(t.token_type).prefix {
            Some(PrefixRule::Grouping) => {
                lemma_expr_lines(ts, src, i + 1, Precedence::ASSIGNMENT);
            },
            Some(PrefixRule::Unary) => {
                lemma_expr_lines(ts, src, i + 1, Precedence::UNARY);
                if let Some((j, e)) = parse_expr(ts, src, i + 1, Precedence::UNARY) {
                    lemma_lines_concat(e, seq![Emit::Op { op: OpCode::Negate, line: t.line }], ts);
                    assert(e.push(Emit::Op { op: OpCode::Negate, line: t.line }) == e + seq![Emit::Op { op: OpCode::Negate, line: t.line }]);
                }
            },
            Some(_) => {
                if let Some(l) = literal_emit(src, t) {
                    assert(is_literal_kind(ts[i]));
                    assert(line_from_literal(l, ts));
                    assert(lines_from_literals(seq![l], ts));
                }
            },
            None => {},
        }
    }
}

proof fn lemma_expr_lines(ts: Seq<Token>, src: Seq<u8>, i: int, p: Precedence)
    ensures
        parse_expr(ts, src, i, p) matches Some((_, e)) ==> lines_from_literals(e, ts),
    decreases ts.len() - i, 2int,
{
    if 0 <= i < ts.len() {
        lemma_prefix_lines(ts, src, i);
        if let Some((j, e)) = parse_prefix(ts, src, i) {
            if i < j <= ts.len() {
                lemma_loop_lines(ts, src, j, p, e);
            }
        }
    }
}

proof fn lemma_loop_lines(ts: Seq<Token>, src: Seq<u8>, j: int, p: Precedence, acc: Seq<Emit>)
    requires
        lines_from_literals(acc, ts),
    ensures
        infix_loop(ts, src, j, p, acc) matches Some((_, e)) ==> lines_from_literals(e, ts),
    decreases ts.len() - j, 3int,
{
    if 0 <= j < ts.len() && rank(rule_of(ts[j].token_type).precedence) >= rank(p) {
        let op = ts[j];
        if let Some(InfixRule::Binary) = rule_of(op.token_type).infix {
            lemma_expr_lines(ts, src, j + 1, next_spec(rule_of(op.token_type).precedence));
            if let Some((k, e2)) = parse_expr(ts, src, j + 1, next_spec(rule_of(op.token_type).precedence)) {
                if let Some(ops) = binary_emit(op) {
                    if j < k <= ts.len() {
                        lemma_ops_lines(op, ts);
                        lemma_lines_concat(acc, e2, ts);
                        lemma_lines_concat(acc + e2, ops, ts);
                        lemma_loop_lines(ts, src, k, p, acc + e2 + ops);
                    }
                }
            }
        }
    }
}

/// Every constant that compiling emits carries the line of a literal token of the input.
pub proof fn lemma_constant_lines(ts: Seq<Token>, src: Seq<u8>)
    ensures
        compile_spec(ts, src) matches Some(e) ==> lines_from_literals(e, ts),
{
    lemma_expr_lines(ts, src, 0, Precedence::ASSIGNMENT);
}

/// Why compiling failed.
#[derive(Debug, Clone, Copy, PartialEq, Eq, Structural)]
pub enum CompileMessage {
    /// The lexer could not make a token here.
    LexError,
    /// A token that cannot begin an expression.
    ExpectedExpression,
    /// A `(` without its `)`.
    ExpectedRightParen,
    /// Tokens after the expression.
    ExpectedEnd,
    /// A literal whose value cannot be held.
    InvalidLiteral,
    /// A token that is no binary operator.
    InvalidOperator,
}

/// The first compile error: its line, the byte range of the lexeme it was found at,
/// and what went wrong.
#[derive(Debug, Clone, Copy, PartialEq, Eq)]
pub struct CompileError {
    pub line: u32,
    pub lexeme: Option<(u32, u32)>,
    pub message: CompileMessage,
}

/// A Pratt parser that compiles one expression from a token sequence into a chunk.
pub struct Compiler<'a> {
    tokens: Vec<Token>,
    source: &'a [u8],
    chunk: Chunk,
    pos: usize,
    previous: Option<Token>,
    current: Option<Token>,
    line: u32,
    had_error: bool,
    first_error: Option<CompileError>,
}

pub open spec fn budget_ok(bytes: nat, len: nat, cur: int, extra: int) -> bool {
    bytes + 13 * (len + extra - cur) <= usize::MAX
}

impl<'a> Compiler<'a> {
    pub closed spec fn toks(&self) -> Seq<Token> {
        self.tokens@
    }

    pub closed spec fn src(&self) -> Seq<u8> {
        self.source@
    }

    /// The chunk being written.
    pub closed spec fn spec_chunk(&self) -> Chunk {
        self.chunk
    }

    /// The first error recorded; later errors leave it as it is.
    pub closed spec fn spec_first_error(&self) -> Option<CompileError> {
        self.first_error
    }

    pub closed spec fn spec_had_error(&self) -> bool {
        self.had_error
    }

    /// The index of the current token; the length of the sequence once past its end.
    pub closed spec fn cur(&self) -> int {
        if self.current is Some {
            self.pos - 1
        } else {
            self.tokens@.len() as int
        }
    }

    pub closed spec fn wf(&self) -> bool {
        &&& tokens_well_formed(self.tokens@, self.source@.len())
        &&& self.chunk.wf()
        &&& self.pos <= self.tokens@.len()
        &&& self.current matches Some(t) ==> self.pos >= 1 && t == self.tokens@[self.pos - 1]
        &&& self.current is None ==> self.pos == self.tokens@.len()
        &&& self.had_error == self.first_error is Some
        &&& self.current matches Some(t) ==> (t.token_type == TokenType::Error ==> self.had_error)
    }

    /// An error may be pending only because the current token is a lexer error.
    pub closed spec fn entry_ok(&self) -> bool {
        !self.had_error || (self.cur() < self.tokens@.len() && self.tokens@[self.cur()].token_type == TokenType::Error)
    }

    pub closed spec fn measure(&self) -> int {
        self.tokens@.len() + 1 - self.cur()
    }

    /// A compiler that has not begun.
    pub closed spec fn fresh(&self) -> bool {
        &&& tokens_well_formed(self.tokens@, self.source@.len())
        &&& self.chunk.wf()
        &&& self.pos == 0
        &&& self.current is None
        &&& !self.had_error
        &&& self.first_error is None
    }

    /// What a parse step was to do, given what the rules say of it.
    pub open spec fn outcome(&self, old: Self, res: Option<(int, Seq<Emit>)>, extra: int) -> bool {
        &&& self.wf()
        &&& self.toks() == old.toks()
        &&& self.src() == old.src()
        &&& old.cur() <= self.cur() <= self.toks().len()
        &&& old.spec_had_error() ==> self.spec_had_error()
        &&& self.spec_chunk().bytes().len() <= old.spec_chunk().bytes().len() + 13 * (self.cur() - old.cur() + extra)
        &&& self.spec_chunk()@.len() >= old.spec_chunk()@.len()
        &&& self.spec_chunk()@.subrange(0, old.spec_chunk()@.len() as int) == old.spec_chunk()@
        &&& match res {
            None => self.spec_had_error(),
            Some((j, e)) => {
                &&& self.cur() == j
                &&& all_match(self.spec_chunk()@.subrange(old.spec_chunk()@.len() as int, self.spec_chunk()@.len() as int), e)
                &&& self.spec_had_error() == (old.spec_had_error() || (j < self.toks().len()
                    && self.toks()[j].token_type == TokenType::Error))
            },
        }
    }

    /// A compiler for `tokens`, which were scanned from `source`, writing into `chunk`.
    pub fn new(tokens: Vec<Token>, source: &'a str, chunk: Chunk) -> (r: Compiler<'a>)
        requires
            tokens_well_formed(tokens@, source.spec_bytes().len()),
            chunk.wf(),
        ensures
            r.fresh(),
            r.toks() == tokens@,
            r.src() == source.spec_bytes(),
            r.spec_chunk() == chunk,
    {
        Compiler {
            tokens,
            source: source.as_bytes(),
            chunk,
            pos: 0,
            previous: None,
            current: None,
            line: 0,
            had_error: false,
            first_error: None,
        }
    }

    fn error(&mut self, message: CompileMessage)
        requires
            old(self).had_error == old(self).first_error is Some,
        ensures
            final(self).had_error,
            final(self).first_error == if old(self).had_error {
                old(self).first_error
            } else {
                Some(
                    CompileError {
                        line: old(self).line,
                        lexeme: match old(self).previous {
                            Some(t) => Some(t.range),
                            None => None,
                        },
                        message,
                    },
                )
            },
            final(self).line == old(self).line,
            final(self).tokens == old(self).tokens,
            final(self).source == old(self).source,
            final(self).chunk == old(self).chunk,
            final(self).pos == old(self).pos,
            final(self).previous == old(self).previous,
            final(self).current == old(self).current,
    {
        if !self.had_error {
            let lexeme = match self.previous {
                Some(t) => Some(t.range),
                None => None,
            };
            self.first_error = Some(CompileError { line: self.line, lexeme, message });
            self.had_error = true;
        }
    }

    /// Moves to the next token; a lexer error token is reported as it is reached.
    fn advance(&mut self)
        requires
            old(self).wf() || old(self).fresh(),
        ensures
            final(self).wf(),
            final(self).tokens == old(self).tokens,
            final(self).source == old(self).source,
            final(self).chunk == old(self).chunk,
            final(self).previous == old(self).current,
            old(self).pos < old(self).tokens@.len() ==> final(self).pos == old(self).pos + 1
                && final(self).current == Some(old(self).tokens@[old(self).pos as int]),
            old(self).pos >= old(self).tokens@.len() ==> final(self).pos == old(self).pos
                && final(self).current is None,
            final(self).had_error == (old(self).had_error || (final(self).current matches Some(t)
                && t.token_type == TokenType::Error)),
    {
        self.previous = self.current;
        if self.pos < self.tokens.len() {
            let t = self.tokens[self.pos];
            self.pos = self.pos + 1;
            self.line = t.line;
            self.current = Some(t);
            if t.token_type == TokenType::Error {
                self.error(CompileMessage::LexError);
            }
        } else {
            self.current = None;
        }
    }

    fn consume(&mut self, kind: TokenType, message: CompileMessage)
        requires
            old(self).wf(),
        ensures
            final(self).wf(),
            final(self).tokens == old(self).tokens,
            final(self).source == old(self).source,
            final(self).chunk == old(self).chunk,
            (old(self).cur() < old(self).tokens@.len() && old(self).tokens@[old(self).cur()].token_type == kind)
                ==> final(self).cur() == old(self).cur() + 1 && final(self).had_error == (old(self).had_error
                || (final(self).cur() < final(self).tokens@.len() && final(self).tokens@[final(self).cur()].token_type
                == TokenType::Error)),
            !(old(self).cur() < old(self).tokens@.len() && old(self).tokens@[old(self).cur()].token_type
                == kind) ==> final(self).had_error && final(self).cur() == old(self).cur(),
    {
        match self.current {
            Some(t) => {
                if t.token_type == kind {
                    self.advance();
                } else {
                    self.error(message);
                }
            },
            None => self.error(message),
        }
    }

    /// Compiles one expression followed by the end of the input. Succeeds exactly when
    /// the tokens form such an expression under the rule table; the chunk then gets
    /// the expression's code.
    pub fn compile<F: FloatArith>(&mut self, floats: &F) -> (r: Option<()>)
        requires
            old(self).fresh(),
            budget_ok(old(self).spec_chunk().bytes().len(), old(self).toks().len(), 0, 1),
        ensures
            final(self).wf(),
            final(self).spec_chunk().wf(),
            final(self).toks() == old(self).toks(),
            final(self).src() == old(self).src(),
            r is Some <==> compile_spec(old(self).toks(), old(self).src()) is Some,
            r is Some == !final(self).spec_had_error(),
            compile_spec(old(self).toks(), old(self).src()) matches Some(e) ==> {
                &&& final(self).spec_chunk()@.subrange(0, old(self).spec_chunk()@.len() as int)
                    == old(self).spec_chunk()@
                &&& all_match(
                    final(self).spec_chunk()@.subrange(
                        old(self).spec_chunk()@.len() as int,
                        final(self).spec_chunk()@.len() as int,
                    ),
                    e,
                )
            },
    {
        self.advance();
        self.expression(floats);
        self.consume(TokenType::EndOfFile, CompileMessage::ExpectedEnd);
        if self.had_error {
            None
        } else {
            Some(())
        }
    }

    fn expression<F: FloatArith>(&mut self, floats: &F)
        requires
            old(self).wf(),
            old(self).entry_ok(),
            budget_ok(old(self).chunk.bytes().len(), old(self).tokens@.len(), old(self).cur(), 1),
        ensures
            final(self).outcome(
                *old(self),
                parse_expr(old(self).toks(), old(self).src(), old(self).cur(), Precedence::ASSIGNMENT),
                0,
            ),
        decreases old(self).measure(), 1int,
    {
        self.parse_precedence(Precedence::ASSIGNMENT, floats);
    }

    /// Parses an expression of precedence `p` or tighter: a prefix, then infix
    /// operators for as long as they bind at least as tightly as `p`.
    fn parse_precedence<F: FloatArith>(&mut self, p: Precedence, floats: &F)
        requires
            old(self).wf(),
            old(self).entry_ok(),
            rank(p) >= 1,
            budget_ok(old(self).chunk.bytes().len(), old(self).tokens@.len(), old(self).cur(), 1),
        ensures
            final(self).outcome(*old(self), parse_expr(old(self).toks(), old(self).src(), old(self).cur(), p), 0),
            (old(self).cur() >= old(self).toks().len() || rule_of(old(self).toks()[old(self).cur()].token_type).prefix is None)
                ==> final(self).spec_chunk() == old(self).spec_chunk(),
        decreases old(self).measure(), 0int,
    {
        let ghost i = self.cur();
        let ghost ts = self.tokens@;
        let ghost src = self.source@;
        proof {
            lemma_prefix_progress(ts, src, i);
        }
        self.advance();
        let t = match self.previous {
            Some(t) => t,
            None => {
                self.error(CompileMessage::ExpectedExpression);
                proof {
                    assert(self.chunk@.subrange(0, old(self).chunk@.len() as int) =~= old(self).chunk@);
                }
                return;
            },
        };
        let rule = get_rule(t.token_type);
        match rule.prefix {
            None => {
                self.error(CompileMessage::ExpectedExpression);
                proof {
                    assert(self.chunk@.subrange(0, old(self).chunk@.len() as int) =~= old(self).chunk@);
                }
                return;
            },
            Some(PrefixRule::Grouping) => self.grouping(floats),
            Some(PrefixRule::Unary) => self.unary(t, floats),
            Some(_) => self.constant(t, floats),
        }
        if self.had_error {
            proof {
                if i + 1 < ts.len() && ts[i + 1].token_type == TokenType::Error {
                    assert(parse_prefix(ts, src, i + 1) is None);
                    assert(parse_expr(ts, src, i + 1, Precedence::ASSIGNMENT) is None);
                    assert(parse_expr(ts, src, i + 1, Precedence::UNARY) is None);
                }
                if let Some((j, e)) = parse_prefix(ts, src, i) {
                    assert(ts[j].token_type == TokenType::Error);
                    assert(infix_loop(ts, src, j, p, e) == Some((j, e)));
                }
            }
            return;
        }
        let ghost mut acc: Seq<Emit> = parse_prefix(ts, src, i)->Some_0.1;
        loop
            invariant
                self.wf(),
                self.tokens@ == ts,
                self.source@ == src,
                ts == old(self).tokens@,
                src == old(self).source@,
                i == old(self).cur(),
                i < ts.len() && rule_of(ts[i].token_type).prefix is Some,
                !self.had_error,
                !old(self).had_error,
                rank(p) >= 1,
                i < self.cur() <= ts.len(),
                infix_loop(ts, src, self.cur(), p, acc) == parse_expr(ts, src, i, p),
                self.chunk@.len() >= old(self).chunk@.len(),
                self.chunk@.subrange(0, old(self).chunk@.len() as int) == old(self).chunk@,
                all_match(self.chunk@.subrange(old(self).chunk@.len() as int, self.chunk@.len() as int), acc),
                self.chunk.bytes().len() <= old(self).chunk.bytes().len() + 13 * (self.cur() - i),
                budget_ok(old(self).chunk.bytes().len(), ts.len(), i, 1),
            decreases ts.len() - self.cur(),
        {
            let c = match self.current {
                Some(c) => c,
                None => {
                    return;
                },
            };
            let crule = get_rule(c.token_type);
            if crule.precedence.level() < p.level() {
                return;
            }
            let ghost before = *self;
            self.advance();
            match crule.infix {
                None => {
                    self.error(CompileMessage::InvalidOperator);
                    return;
                },
                Some(InfixRule::Binary) => self.binary(c, floats),
            }
            proof {
                let cc = before.cur();
                lemma_expr_progress(ts, src, cc + 1, next_spec(rule_of(c.token_type).precedence));
                if let Some((k, e)) = binary_spec(ts, src, cc + 1, c) {
                    lemma_extend(old(self).chunk@, before.chunk@, self.chunk@, acc, e);
                    let e2 = parse_expr(ts, src, cc + 1, next_spec(rule_of(c.token_type).precedence))->Some_0.1;
                    let ops = binary_emit(c)->Some_0;
                    assert(e == e2 + ops);
                    assert(acc + e == acc + e2 + ops);
                    acc = acc + e;
                } else {
                    assert(self.chunk@.subrange(0, before.chunk@.len() as int) == before.chunk@);
                    assert(self.chunk@.subrange(0, old(self).chunk@.len() as int) =~= before.chunk@.subrange(0, old(self).chunk@.len() as int));
                }
            }
            if self.had_error {
                return;
            }
        }
    }

    /// `( expression )`.
    fn grouping<F: FloatArith>(&mut self, floats: &F)
        requires
            old(self).wf(),
            old(self).entry_ok(),
            1 <= old(self).cur(),
            rule_of(old(self).tokens@[old(self).cur() - 1].token_type).prefix == Some(PrefixRule::Grouping),
            budget_ok(old(self).chunk.bytes().len(), old(self).tokens@.len(), old(self).cur(), 2),
        ensures
            final(self).outcome(*old(self), parse_prefix(old(self).toks(), old(self).src(), old(self).cur() - 1), 1),
        decreases old(self).measure(), 2int,
    {
        proof {
            lemma_expr_progress(self.tokens@, self.source@, self.cur(), Precedence::ASSIGNMENT);
        }
        self.expression(floats);
        self.consume(TokenType::RightParent, CompileMessage::ExpectedRightParen);
    }

    /// `-operand` or `!operand`: the operand, then `Negate`.
    fn unary<F: FloatArith>(&mut self, t: Token, floats: &F)
        requires
            old(self).wf(),
            old(self).entry_ok(),
            1 <= old(self).cur(),
            t == old(self).tokens@[old(self).cur() - 1],
            rule_of(t.token_type).prefix == Some(PrefixRule::Unary),
            budget_ok(old(self).chunk.bytes().len(), old(self).tokens@.len(), old(self).cur(), 2),
        ensures
            final(self).outcome(*old(self), parse_prefix(old(self).toks(), old(self).src(), old(self).cur() - 1), 1),
        decreases old(self).measure(), 2int,
    {
        proof {
            lemma_expr_progress(self.tokens@, self.source@, self.cur(), Precedence::UNARY);
        }
        self.parse_precedence(Precedence::UNARY, floats);
        let ghost mid = *self;
        write_opcode(&mut self.chunk, OpCode::Negate, t.line);
        proof {
            let e = seq![Emit::Op { op: OpCode::Negate, line: t.line }];
            assert(all_match(self.chunk@.subrange(mid.chunk@.len() as int, self.chunk@.len() as int), e));
            assert(self.chunk@.subrange(0, mid.chunk@.len() as int) == mid.chunk@);
            if let Some((j, e1)) = parse_expr(self.tokens@, self.source@, old(self).cur(), Precedence::UNARY) {
                lemma_extend(old(self).chunk@, mid.chunk@, self.chunk@, e1, e);
                assert(e1 + e == e1.push(Emit::Op { op: OpCode::Negate, line: t.line }));
            } else {
                assert(self.chunk@.subrange(0, old(self).chunk@.len() as int) =~= mid.chunk@.subrange(0, old(self).chunk@.len() as int));
            }
        }
    }

    /// A literal: its constant.
    fn constant<F: FloatArith>(&mut self, t: Token, floats: &F)
        requires
            old(self).wf(),
            old(self).entry_ok(),
            1 <= old(self).cur(),
            t == old(self).tokens@[old(self).cur() - 1],
            rule_of(t.token_type).prefix matches Some(r) && r != PrefixRule::Grouping && r != PrefixRule::Unary,
            budget_ok(old(self).chunk.bytes().len(), old(self).tokens@.len(), old(self).cur(), 2),
        ensures
            final(self).outcome(*old(self), parse_prefix(old(self).toks(), old(self).src(), old(self).cur() - 1), 1),
    {
        proof {
            assert(self.tokens@[self.cur() - 1] == t);
        }
        if !write_value(&mut self.chunk, &t, self.source, floats) {
            self.error(CompileMessage::InvalidLiteral);
        }
        proof {
            if let Some(l) = literal_emit(self.source@, t) {
                assert(self.chunk@.subrange(0, old(self).chunk@.len() as int) =~= self.chunk@.drop_last());
                assert(self.chunk@.subrange(old(self).chunk@.len() as int, self.chunk@.len() as int) =~= seq![self.chunk@.last()]);
            } else {
                assert(self.chunk@.subrange(0, old(self).chunk@.len() as int) =~= old(self).chunk@);
            }
        }
    }

    /// The right operand of a binary operator, then the operator's opcodes.
    fn binary<F: FloatArith>(&mut self, t: Token, floats: &F)
        requires
            old(self).wf(),
            old(self).entry_ok(),
            1 <= old(self).cur(),
            t == old(self).tokens@[old(self).cur() - 1],
            rule_of(t.token_type).infix == Some(InfixRule::Binary),
            budget_ok(old(self).chunk.bytes().len(), old(self).tokens@.len(), old(self).cur(), 2),
        ensures
            final(self).outcome(*old(self), binary_spec(old(self).toks(), old(self).src(), old(self).cur(), t), 1),
        decreases old(self).measure(), 2int,
    {
        let rule = get_rule(t.token_type);
        self.parse_precedence(rule.precedence.next(), floats);
        let ghost mid = *self;
        let l = t.line;
        match t.token_type {
            TokenType::BangEqual => write_opcodes(&mut self.chunk, OpCode::Equal, OpCode::Negate, l),
            TokenType::EqualEqual => write_opcode(&mut self.chunk, OpCode::Equal, l),
            TokenType::Greater => write_opcode(&mut self.chunk, OpCode::Greater, l),
            TokenType::GreaterEqual => write_opcodes(&mut self.chunk, OpCode::Less, OpCode::Negate, l),
            TokenType::Less => write_opcode(&mut self.chunk, OpCode::Less, l),
            TokenType::LessEqual => write_opcodes(&mut self.chunk, OpCode::Greater, OpCode::Negate, l),
            TokenType::Plus => write_opcode(&mut self.chunk, OpCode::Add, l),
            TokenType::Minus => write_opcode(&mut self.chunk, OpCode::Subtract, l),
            TokenType::Star => write_opcode(&mut self.chunk, OpCode::Multiply, l),
            TokenType::Slash => write_opcode(&mut self.chunk, OpCode::Divide, l),
            _ => self.error(CompileMessage::InvalidOperator),
        }
        proof {
            assert(self.chunk@.subrange(0, mid.chunk@.len() as int) =~= mid.chunk@);
            if let Some(ops) = binary_emit(t) {
                assert(all_match(self.chunk@.subrange(mid.chunk@.len() as int, self.chunk@.len() as int), ops)) by {
                    assert(self.chunk@.subrange(mid.chunk@.len() as int, self.chunk@.len() as int) =~= self.chunk@.subrange(mid.chunk@.len() as int, self.chunk@.len() as int));
                }
                if let Some((k, e2)) = parse_expr(self.tokens@, self.source@, old(self).cur(), next_spec(rule_of(t.token_type).precedence)) {
                    lemma_extend(old(self).chunk@, mid.chunk@, self.chunk@, e2, ops);
                } else {
                    assert(self.chunk@.subrange(0, old(self).chunk@.len() as int) =~= mid.chunk@.subrange(0, old(self).chunk@.len() as int));
                }
            } else {
                assert(self.chunk@.subrange(0, old(self).chunk@.len() as int) =~= mid.chunk@.subrange(0, old(self).chunk@.len() as int));
            }
        }
    }

    /// The chunk written so far.
    pub fn chunk(&self) -> (r: &Chunk)
        ensures
            *r == self.spec_chunk(),
    {
        &self.chunk
    }

    /// Gives up the compiler for the chunk it wrote.
    pub fn into_chunk(self) -> (r: Chunk)
        ensures
            r == self.spec_chunk(),
    {
        self.chunk
    }

    /// The first error met, if any.
    pub fn first_error(&self) -> (r: Option<CompileError>)
        requires
            self.wf(),
        ensures
            r is Some == self.spec_had_error(),
            r == self.spec_first_error(),
    {
        self.first_error
    }
}


} // verus!
