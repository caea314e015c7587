use vstd::prelude::*;
use vstd::string::StringSliceAdditionalSpecFns;

use crate::chunk::{Chunk, Instr, DEFAULT_CAPACITY};
use crate::compiler::{
    all_match, compile_spec, emit_matches, is_literal_kind, lemma_constant_lines, line_from_literal, CompileError,
    Compiler, Emit,
};
use crate::lexer::{lemma_lex_well_formed, lemma_token_lines, lex_from, newlines, Lexer};
use crate::token::TokenType;
use crate::value::{FloatArith, Value, ValueView};
use crate::vm::{lemma_runs_deterministic, runs, views, MachineState, RuntimeError, VM};

verus! {

/// Why a source text could not be run to its end.
#[derive(Debug, Clone, Copy, PartialEq, Eq)]
pub enum InterpretError {
    /// The text is no well-formed expression; the first error found.
    Compile(Option<CompileError>),
    /// The expression failed while it ran.
    Runtime(RuntimeError),
}

/// The tokens of a source text.
pub open spec fn tokens_of(src: Seq<u8>) -> Seq<crate::token::Token> {
    lex_from(src, 0, 1)
}

/// The outcome of a run as the machine's contract states it; `None` where nothing ran.
pub open spec fn run_outcome(r: Result<(Vec<Value>, Vec<Value>), InterpretError>) -> Option<Result<MachineState, RuntimeError>> {
    match r {
        Ok((stack, printed)) => Some(Ok((views(stack@), views(printed@)))),
        Err(InterpretError::Runtime(e)) => Some(Err(e)),
        Err(InterpretError::Compile(_)) => None,
    }
}

/// Lexes, compiles and runs a source text: the final stack (top last) and the values
/// printed, or the first error. It fails to compile exactly when the tokens form no
/// expression; otherwise the result is one that the compiled code allows.
pub fn interpret<F: FloatArith>(source: &str, floats: &F) -> (r: Result<(Vec<Value>, Vec<Value>), InterpretError>)
    requires
        source.spec_bytes().len() < u32::MAX,
        13 * (source.spec_bytes().len() + 2) <= usize::MAX,
    ensures
        (r matches Err(InterpretError::Compile(_))) <==> compile_spec(tokens_of(source.spec_bytes()), source.spec_bytes()) is None,
        compile_spec(tokens_of(source.spec_bytes()), source.spec_bytes()) matches Some(e) ==> exists|recs: Seq<Instr>|
            all_match(recs, e) && (run_outcome(r) matches Some(o) && runs(recs, (seq![], seq![]), o)),
{
    let mut lexer = Lexer::new(source);
    let tokens = lexer.lexing();
    proof {
        lemma_lex_well_formed(source.spec_bytes(), 0, 1);
    }
    let chunk = Chunk::new(DEFAULT_CAPACITY);
    let mut compiler = Compiler::new(tokens, source, chunk);
    if compiler.compile(floats).is_none() {
        return Err(InterpretError::Compile(compiler.first_error()));
    }
    let chunk = compiler.into_chunk();
    let ghost recs = chunk@;
    proof {
        assert(recs.subrange(0, 0) =~= Seq::<Instr>::empty());
        assert(recs.subrange(0, recs.len() as int) == recs);
    }
    let mut vm = VM::new(&chunk);
    let res = vm.run(floats);
    match res {
        Ok(()) => {
            let out = vm.finish();
            Ok(out)
        },
        Err(e) => Err(InterpretError::Runtime(e)),
    }
}

/// Code with no float constant: the host's rounding plays no part in running it.
pub open spec fn code_without_floats(e: Seq<Emit>) -> bool {
    forall|k: int|
        0 <= k < e.len() ==> !(#[trigger] e[k] is FloatLit) && !(e[k] matches Emit::Lit { value: ValueView::Float(_), .. })
}

/// Interpreting the same source twice gives the same final stack, the same output and
/// the same error: any two outcomes that the contract of `interpret` allows for one
/// source agree, where the code holds no float constant.
pub proof fn lemma_interpret_deterministic(
    src: Seq<u8>,
    recs1: Seq<Instr>,
    recs2: Seq<Instr>,
    r1: Result<MachineState, RuntimeError>,
    r2: Result<MachineState, RuntimeError>,
)
    requires
        compile_spec(tokens_of(src), src) matches Some(e) && code_without_floats(e) && all_match(recs1, e)
            && all_match(recs2, e),
        runs(recs1, (seq![], seq![]), r1),
        runs(recs2, (seq![], seq![]), r2),
    ensures
        r1 == r2,
{
    let e = compile_spec(tokens_of(src), src)->Some_0;
    assert forall|k: int| 0 <= k < recs1.len() implies recs1[k] == recs2[k] by {
        assert(emit_matches(recs1[k], e[k]));
        assert(emit_matches(recs2[k], e[k]));
        assert(!(e[k] is FloatLit));
    }
    assert(recs1 =~= recs2);
    assert forall|j: int| 0 <= j < recs1.len() implies !((#[trigger] recs1[j]) matches Instr::Const {
        value: ValueView::Float(_),
        ..
    }) by {
        assert(emit_matches(recs1[j], e[j]));
        assert(!(e[j] is FloatLit));
    }
    lemma_runs_deterministic(recs1, (seq![], seq![]), r1, r2);
}

/// The line that a constant of the code carries.
pub open spec fn constant_line(x: Emit) -> Option<u32> {
    match x {
        Emit::Op { .. } => None,
        Emit::Lit { line, .. } => Some(line),
        Emit::FloatLit { line } => Some(line),
    }
}

/// Each constant of a source's code carries the source line of a literal: one plus the
/// newlines before the literal, where no string literal spans a newline.
pub proof fn lemma_constant_source_lines(src: Seq<u8>, k: int)
    requires
        src.len() < u32::MAX,
        forall|j: int|
            0 <= j < tokens_of(src).len() && (#[trigger] tokens_of(src)[j]).token_type == TokenType::Text ==> newlines(
                src.subrange(tokens_of(src)[j].range.0 as int, tokens_of(src)[j].range.1 as int),
            ) == 0,
        compile_spec(tokens_of(src), src) matches Some(e) && 0 <= k < e.len() && constant_line(e[k]) is Some,
    ensures
        exists|j: int|
            0 <= j < tokens_of(src).len() && is_literal_kind(#[trigger] tokens_of(src)[j]) && constant_line(
                compile_spec(tokens_of(src), src)->Some_0[k],
            ) == Some((1 + newlines(src.subrange(0, tokens_of(src)[j].range.0 as int))) as u32),
{
    let ts = tokens_of(src);
    let e = compile_spec(ts, src)->Some_0;
    lemma_constant_lines(ts, src);
    assert(line_from_literal(e[k], ts));
    let j = choose|j: int| 0 <= j < ts.len() && is_literal_kind(#[trigger] ts[j]) && Some(ts[j].line) == constant_line(e[k]);
    lemma_token_lines(src, 0, 1, j);
}

} // verus!
