use vstd::prelude::*;

use crate::chunk::{lemma_read_at, offset, Chunk, Instr, INSTRUCTION_SIZE, VALUE_SIZE};
use crate::opcode::OpCode;
use crate::value::{
    arith_allows, compare_allows, negate_spec, result_view, values_equal, Arith, FloatArith, OpError,
    Value, ValueView,
};

verus! {

/// The capacity that the value stack starts with.
pub const DEFAULT_STACK_CAPACITY: usize = 1024;

/// Why a run stopped.
#[derive(Debug, Clone, Copy, PartialEq, Eq, Structural)]
pub enum VmError {
    /// An instruction needed more values than the stack held.
    StackUnderflow,
    /// An operator was given values it does not take.
    Operation(OpError),
    /// A constant record without its value.
    MalformedChunk,
}

/// A runtime error and the line of the instruction that raised it.
#[derive(Debug, Clone, Copy, PartialEq, Eq, Structural)]
pub struct RuntimeError {
    pub line: u32,
    pub kind: VmError,
}

/// The machine's state as the contracts see it: the stack (top last) and what was
/// printed, in order.
pub type MachineState = (Seq<ValueView>, Seq<ValueView>);

pub open spec fn views(s: Seq<Value>) -> Seq<ValueView> {
    s.map_values(|v: Value| v@)
}

pub open spec fn arith_of(op: OpCode) -> Option<Arith> {
    match op {
        OpCode::Add => Some(Arith::Add),
        OpCode::Subtract => Some(Arith::Subtract),
        OpCode::Multiply => Some(Arith::Multiply),
        OpCode::Divide => Some(Arith::Divide),
        _ => None,
    }
}

/// Whether an operator on the two top values (`b` below `a`) may give `res`.
pub open spec fn binary_allows(op: OpCode, b: ValueView, a: ValueView, res: Result<ValueView, OpError>) -> bool {
    match arith_of(op) {
        Some(ar) => arith_allows(ar, b, a, res),
        None => match op {
            OpCode::Greater => compare_allows(true, b, a, res),
            OpCode::Less => compare_allows(false, b, a, res),
            _ => res == Ok::<ValueView, OpError>(ValueView::Boolean(values_equal(b, a))),
        },
    }
}

pub open spec fn is_binary(op: OpCode) -> bool {
    arith_of(op) is Some || op == OpCode::Greater || op == OpCode::Less || op == OpCode::Equal
}

/// Whether executing one record on state `s` may give `res`.
#[verifier::opaque]
pub open spec fn step_allows(rec: Instr, s: MachineState, res: Result<MachineState, VmError>) -> bool {
    let (st, out) = s;
    match rec {
        Instr::Const { value, .. } => res == Ok::<MachineState, VmError>((st.push(value), out)),
        Instr::Op { op, .. } => if op == OpCode::Return {
            res == Ok::<MachineState, VmError>((st, out))
        } else if op == OpCode::Constant {
            res == Err::<MachineState, VmError>(VmError::MalformedChunk)
        } else if op == OpCode::Negate {
            if st.len() < 1 {
                res == Err::<MachineState, VmError>(VmError::StackUnderflow)
            } else {
                res == match negate_spec(st.last()) {
                    Ok(v) => Ok((st.drop_last().push(v), out)),
                    Err(e) => Err(VmError::Operation(e)),
                }
            }
        } else if op == OpCode::Print {
            if st.len() < 1 {
                res == Err::<MachineState, VmError>(VmError::StackUnderflow)
            } else {
                res == Ok::<MachineState, VmError>((st.drop_last(), out.push(st.last())))
            }
        } else if st.len() < 2 {
            res == Err::<MachineState, VmError>(VmError::StackUnderflow)
        } else {
            let a = st.last();
            let b = st[st.len() - 2];
            let rest = st.drop_last().drop_last();
            match res {
                Ok((st2, out2)) => out2 == out && st2.len() == rest.len() + 1 && st2.drop_last() == rest
                    && binary_allows(op, b, a, Ok(st2.last())),
                Err(VmError::Operation(e)) => binary_allows(op, b, a, Err(e)),
                Err(_) => false,
            }
        },
    }
}

/// Whether running the records from state `s` may end in `res`.
#[verifier::opaque]
pub open spec fn runs(recs: Seq<Instr>, s: MachineState, res: Result<MachineState, RuntimeError>) -> bool
    decreases recs.len(),
{
    if recs.len() == 0 {
        res == Ok::<MachineState, RuntimeError>(s)
    } else {
        exists|mid: Result<MachineState, VmError>|
            #[trigger] step_allows(recs[0], s, mid) && match mid {
                Ok(s2) => runs(recs.drop_first(), s2, res),
                Err(e) => res == Err::<MachineState, RuntimeError>(RuntimeError { line: recs[0].line(), kind: e }),
            }
    }
}


proof fn lemma_step_ok(recs: Seq<Instr>, k: int, s: MachineState, s2: MachineState, init: MachineState)
    requires
        0 <= k < recs.len(),
        step_allows(recs[k], s, Ok(s2)),
        forall|res: Result<MachineState, RuntimeError>|
            #[trigger] runs(recs.subrange(k, recs.len() as int), s, res) ==> runs(recs, init, res),
    ensures
        forall|res: Result<MachineState, RuntimeError>|
            #[trigger] runs(recs.subrange(k + 1, recs.len() as int), s2, res) ==> runs(recs, init, res),
{
    reveal(runs);
    let sub = recs.subrange(k, recs.len() as int);
    assert(sub[0] == recs[k]);
    assert(sub.drop_first() =~= recs.subrange(k + 1, recs.len() as int));
    assert forall|res: Result<MachineState, RuntimeError>|
        #[trigger] runs(recs.subrange(k + 1, recs.len() as int), s2, res) implies runs(recs, init, res) by {
        assert(step_allows(sub[0], s, Ok::<MachineState, VmError>(s2)));
        assert(runs(sub, s, res));
    }
}

proof fn lemma_step_err(recs: Seq<Instr>, k: int, s: MachineState, e: VmError, init: MachineState)
    requires
        0 <= k < recs.len(),
        step_allows(recs[k], s, Err(e)),
        forall|res: Result<MachineState, RuntimeError>|
            #[trigger] runs(recs.subrange(k, recs.len() as int), s, res) ==> runs(recs, init, res),
    ensures
        runs(recs, init, Err(RuntimeError { line: recs[k].line(), kind: e })),
{
    reveal(runs);
    let sub = recs.subrange(k, recs.len() as int);
    assert(sub[0] == recs[k]);
    let res = Err::<MachineState, RuntimeError>(RuntimeError { line: recs[k].line(), kind: e });
    assert(step_allows(sub[0], s, Err::<MachineState, VmError>(e)));
    assert(runs(sub, s, res));
}

proof fn lemma_runs_empty(recs: Seq<Instr>, s: MachineState)
    requires
        recs.len() == 0,
    ensures
        runs(recs, s, Ok(s)),
{
    reveal(runs);
}

/// A step on an opcode record does not depend on the record's line.
proof fn lemma_step_line(op: OpCode, l1: u32, l2: u32, s: MachineState, mid: Result<MachineState, VmError>)
    requires
        step_allows(Instr::Op { op, line: l1 }, s, mid),
    ensures
        step_allows(Instr::Op { op, line: l2 }, s, mid),
{
    reveal(step_allows);
}

proof fn lemma_const_step(value: ValueView, line: u32, s: MachineState)
    ensures
        step_allows(Instr::Const { value, line }, s, Ok((s.0.push(value), s.1))),
{
    reveal(step_allows);
}

/// Pushing two integers and then adding them leaves a single integer, their sum, unless
/// the sum does not fit in 64 bits.
pub proof fn lemma_add_two_integers(a: i64, b: i64, l1: u32, l2: u32, l3: u32, res: Result<MachineState, RuntimeError>)
    requires
        runs(
            seq![
                Instr::Const { value: ValueView::Integer(a), line: l1 },
                Instr::Const { value: ValueView::Integer(b), line: l2 },
                Instr::Op { op: OpCode::Add, line: l3 },
            ],
            (seq![], seq![]),
            res,
        ),
    ensures
        res == if i64::MIN <= a + b <= i64::MAX {
            Ok::<MachineState, RuntimeError>((seq![ValueView::Integer((a + b) as i64)], seq![]))
        } else {
            Err(RuntimeError { line: l3, kind: VmError::Operation(OpError::Overflow) })
        },
{
    reveal(runs);
    reveal(step_allows);
    let recs = seq![
        Instr::Const { value: ValueView::Integer(a), line: l1 },
        Instr::Const { value: ValueView::Integer(b), line: l2 },
        Instr::Op { op: OpCode::Add, line: l3 },
    ];
    let e: Seq<ValueView> = seq![];
    let s1: MachineState = (seq![ValueView::Integer(a)], e);
    let s2: MachineState = (seq![ValueView::Integer(a), ValueView::Integer(b)], e);
    assert(recs[0] == Instr::Const { value: ValueView::Integer(a), line: l1 });
    assert((e, e).0.push(ValueView::Integer(a)) == s1.0);
    let r1 = recs.drop_first();
    assert(r1 =~= seq![Instr::Const { value: ValueView::Integer(b), line: l2 }, Instr::Op { op: OpCode::Add, line: l3 }]);
    assert(runs(r1, s1, res));
    assert(s1.0.push(ValueView::Integer(b)) =~= s2.0);
    let r2 = r1.drop_first();
    assert(r2 =~= seq![Instr::Op { op: OpCode::Add, line: l3 }]);
    assert(runs(r2, s2, res));
    let mid = choose|mid: Result<MachineState, VmError>| #[trigger] step_allows(r2[0], s2, mid) && match mid {
        Ok(s3) => runs(r2.drop_first(), s3, res),
        Err(err) => res == Err::<MachineState, RuntimeError>(RuntimeError { line: r2[0].line(), kind: err }),
    };
    assert(s2.0.last() == ValueView::Integer(b));
    assert(s2.0[s2.0.len() - 2] == ValueView::Integer(a));
    assert(s2.0.drop_last().drop_last() =~= e);
    match mid {
        Ok(s3) => {
            assert(r2.drop_first().len() == 0);
            assert(s3.0 =~= seq![ValueView::Integer((a + b) as i64)]);
        },
        Err(err) => {},
    }
}

/// `Negate` on an empty stack stops the run with a stack underflow at its line.
pub proof fn lemma_negate_empty_stack(line: u32, res: Result<MachineState, RuntimeError>)
    requires
        runs(seq![Instr::Op { op: OpCode::Negate, line }], (seq![], seq![]), res),
    ensures
        res == Err::<MachineState, RuntimeError>(RuntimeError { line, kind: VmError::StackUnderflow }),
{
    reveal(runs);
    reveal(step_allows);
    let recs = seq![Instr::Op { op: OpCode::Negate, line }];
    assert(recs[0] == Instr::Op { op: OpCode::Negate, line });
}

/// No value of the sequence is a double.
pub open spec fn no_floats(s: Seq<ValueView>) -> bool {
    forall|j: int| 0 <= j < s.len() ==> !(#[trigger] s[j] is Float)
}

/// No constant record holds a double.
pub open spec fn records_without_floats(recs: Seq<Instr>) -> bool {
    forall|j: int| 0 <= j < recs.len() ==> !((#[trigger] recs[j]) matches Instr::Const { value: ValueView::Float(_), .. })
}

proof fn lemma_step_functional(rec: Instr, s: MachineState, m1: Result<MachineState, VmError>, m2: Result<MachineState, VmError>)
    requires
        step_allows(rec, s, m1),
        step_allows(rec, s, m2),
        no_floats(s.0),
        no_floats(s.1),
        !(rec matches Instr::Const { value: ValueView::Float(_), .. }),
    ensures
        m1 == m2,
        m1 matches Ok(s2) ==> no_floats(s2.0) && no_floats(s2.1),
{
    reveal(step_allows);
    let (st, out) = s;
    if st.len() >= 1 {
        assert(!(st.last() is Float));
    }
    if st.len() >= 2 {
        assert(!(st[st.len() - 2] is Float));
    }
    match (m1, m2) {
        (Ok(x1), Ok(x2)) => {
            if rec is Op && st.len() >= 2 {
                let op = rec->op;
                if op != OpCode::Return && op != OpCode::Constant && op != OpCode::Negate && op != OpCode::Print {
                    assert(x1.0 =~= x1.0.drop_last().push(x1.0.last()));
                    assert(x2.0 =~= x2.0.drop_last().push(x2.0.last()));
                    assert(x1.0.last() == x2.0.last());
                    assert(x1.0 =~= x2.0);
                    assert forall|j: int| 0 <= j < x1.0.len() implies !(#[trigger] x1.0[j] is Float) by {
                        if j < x1.0.len() - 1 {
                            assert(x1.0[j] == x1.0.drop_last()[j]);
                            assert(x1.0.drop_last()[j] == st[j]);
                        }
                    }
                }
            }
            if rec is Const {
                assert forall|j: int| 0 <= j < x1.0.len() implies !(#[trigger] x1.0[j] is Float) by {
                    if j < st.len() {
                        assert(x1.0[j] == st[j]);
                    }
                }
            }
            if rec is Op && (rec->op == OpCode::Negate || rec->op == OpCode::Print) && st.len() >= 1 {
                assert forall|j: int| 0 <= j < x1.0.len() implies !(#[trigger] x1.0[j] is Float) by {
                    if j < st.len() - 1 {
                        assert(x1.0[j] == st[j]);
                    }
                }
                assert forall|j: int| 0 <= j < x1.1.len() implies !(#[trigger] x1.1[j] is Float) by {
                    if j < out.len() {
                        assert(x1.1[j] == out[j]);
                    }
                }
            }
        },
        _ => {},
    }
}

/// Without doubles, a run has exactly one outcome.
pub proof fn lemma_runs_deterministic(
    recs: Seq<Instr>,
    s: MachineState,
    r1: Result<MachineState, RuntimeError>,
    r2: Result<MachineState, RuntimeError>,
)
    requires
        runs(recs, s, r1),
        runs(recs, s, r2),
        records_without_floats(recs),
        no_floats(s.0),
        no_floats(s.1),
    ensures
        r1 == r2,
    decreases recs.len(),
{
    reveal(runs);
    if recs.len() > 0 {
        let m1 = choose|mid: Result<MachineState, VmError>| #[trigger] step_allows(recs[0], s, mid) && match mid {
            Ok(s2) => runs(recs.drop_first(), s2, r1),
            Err(e) => r1 == Err::<MachineState, RuntimeError>(RuntimeError { line: recs[0].line(), kind: e }),
        };
        let m2 = choose|mid: Result<MachineState, VmError>| #[trigger] step_allows(recs[0], s, mid) && match mid {
            Ok(s2) => runs(recs.drop_first(), s2, r2),
            Err(e) => r2 == Err::<MachineState, RuntimeError>(RuntimeError { line: recs[0].line(), kind: e }),
        };
        assert(!(recs[0] matches Instr::Const { value: ValueView::Float(_), .. }));
        lemma_step_functional(recs[0], s, m1, m2);
        if let Ok(s2) = m1 {
            assert forall|j: int| 0 <= j < recs.drop_first().len() implies !((#[trigger] recs.drop_first()[j]) matches Instr::Const { value: ValueView::Float(_), .. }) by {
                assert(recs.drop_first()[j] == recs[j + 1]);
            }
            lemma_runs_deterministic(recs.drop_first(), s2, r1, r2);
        }
    }
}

/// A stack machine that runs a chunk from its first record to its last.
pub struct VM<'a> {
    chunk: &'a Chunk,
    stack: Vec<Value>,
    printed: Vec<Value>,
    ptr: usize,
}

impl<'a> VM<'a> {
    pub closed spec fn spec_chunk(&self) -> Chunk {
        *self.chunk
    }

    /// The value stack, top last.
    pub closed spec fn spec_stack(&self) -> Seq<ValueView> {
        views(self.stack@)
    }

    /// The values printed so far, in order.
    pub closed spec fn spec_printed(&self) -> Seq<ValueView> {
        views(self.printed@)
    }

    /// A machine that has not begun.
    pub closed spec fn fresh(&self) -> bool {
        &&& self.chunk.wf()
        &&& self.ptr == 0
        &&& self.stack@.len() == 0
        &&& self.printed@.len() == 0
    }

    pub fn new(chunk: &'a Chunk) -> (r: VM<'a>)
        requires
            chunk.wf(),
        ensures
            r.fresh(),
            r.spec_chunk() == *chunk,
    {
        VM { chunk, stack: Vec::with_capacity(DEFAULT_STACK_CAPACITY), printed: Vec::new(), ptr: 0 }
    }

    /// The value stack, bottom first.
    pub fn get_stack(&self) -> (r: &[Value])
        ensures
            views(r@) == self.spec_stack(),
    {
        self.stack.as_slice()
    }

    /// The values that `Print` took off the stack, in order.
    pub fn printed(&self) -> (r: &[Value])
        ensures
            views(r@) == self.spec_printed(),
    {
        self.printed.as_slice()
    }

    /// The state of the machine as the contracts see it.
    pub closed spec fn state(&self) -> MachineState {
        (views(self.stack@), views(self.printed@))
    }

    pub closed spec fn values_wf(&self) -> bool {
        forall|j: int| 0 <= j < self.stack@.len() ==> (#[trigger] self.stack@[j]).wf()
    }

    fn push(&mut self, v: Value)
        requires
            old(self).values_wf(),
            v.wf(),
        ensures
            final(self).values_wf(),
            final(self).chunk == old(self).chunk,
            final(self).ptr == old(self).ptr,
            final(self).printed == old(self).printed,
            final(self).stack@ == old(self).stack@.push(v),
            final(self).state() == (old(self).state().0.push(v@), old(self).state().1),
    {
        self.stack.push(v);
        proof {
            assert(views(self.stack@) =~= views(old(self).stack@).push(v@));
            assert forall|j: int| 0 <= j < self.stack@.len() implies (#[trigger] self.stack@[j]).wf() by {
                if j < old(self).stack@.len() {
                    assert(self.stack@[j] == old(self).stack@[j]);
                }
            }
        }
    }

    /// Executes an opcode other than `Constant` on the stack.
    fn execute<F: FloatArith>(&mut self, op: OpCode, floats: &F) -> (r: Result<(), VmError>)
        requires
            old(self).values_wf(),
            op != OpCode::Constant,
        ensures
            final(self).values_wf(),
            final(self).chunk == old(self).chunk,
            final(self).ptr == old(self).ptr,
            step_allows(
                Instr::Op { op, line: 0 },
                old(self).state(),
                match r {
                    Ok(()) => Ok(final(self).state()),
                    Err(e) => Err(e),
                },
            ),
    {
        reveal(step_allows);
        let ghost st = views(self.stack@);
        let ghost out = views(self.printed@);
        if op == OpCode::Return {
            return Ok(());
        }
        if op == OpCode::Negate || op == OpCode::Print {
            let x = match self.pop() {
                Ok(x) => x,
                Err(e) => {
                    return Err(e);
                },
            };
            proof {
                assert(st.last() == x@);
                assert(views(self.stack@) =~= st.drop_last());
                assert(old(self).stack@[old(self).stack@.len() - 1].wf());
                assert forall|j: int| 0 <= j < self.stack@.len() implies (#[trigger] self.stack@[j]).wf() by {
                    assert(self.stack@[j] == old(self).stack@[j]);
                }
            }
            if op == OpCode::Print {
                self.printed.push(x);
                proof {
                    assert(views(self.printed@) =~= out.push(x@));
                }
                return Ok(());
            }
            return match x.negate() {
                Ok(v) => {
                    self.push(v);
                    Ok(())
                },
                Err(e) => Err(VmError::Operation(e)),
            };
        }
        let a = match self.pop() {
            Ok(a) => a,
            Err(e) => {
                return Err(e);
            },
        };
        let b = match self.pop() {
            Ok(b) => b,
            Err(e) => {
                return Err(e);
            },
        };
        proof {
            let n = old(self).stack@.len();
            assert(old(self).stack@[n - 1].wf());
            assert(old(self).stack@[n - 2].wf());
            assert(st.last() == a@);
            assert(st[st.len() - 2] == b@);
            assert(views(self.stack@) =~= st.drop_last().drop_last());
            assert forall|j: int| 0 <= j < self.stack@.len() implies (#[trigger] self.stack@[j]).wf() by {
                assert(self.stack@[j] == old(self).stack@[j]);
            }
        }
        let res = match op {
            OpCode::Add => b.arith(Arith::Add, &a, floats),
            OpCode::Subtract => b.arith(Arith::Subtract, &a, floats),
            OpCode::Multiply => b.arith(Arith::Multiply, &a, floats),
            OpCode::Divide => b.arith(Arith::Divide, &a, floats),
            OpCode::Greater => b.greater(&a, floats),
            OpCode::Less => b.less(&a, floats),
            _ => Ok(Value::Boolean(b.equals(&a))),
        };
        match res {
            Ok(v) => {
                self.push(v);
                proof {
                    assert(self.state().0.drop_last() == st.drop_last().drop_last());
                }
                Ok(())
            },
            Err(e) => Err(VmError::Operation(e)),
        }
    }

    /// Runs the chunk from its first record to its last. The outcome is one that the
    /// records allow from an empty stack: the final stack and what was printed, or the
    /// first runtime error with its line.
    #[verifier::rlimit(40)]
    pub fn run<F: FloatArith>(&mut self, floats: &F) -> (r: Result<(), RuntimeError>)
        requires
            old(self).fresh(),
        ensures
            final(self).spec_chunk() == old(self).spec_chunk(),
            runs(
                old(self).spec_chunk()@,
                (seq![], seq![]),
                match r {
                    Ok(()) => Ok((final(self).spec_stack(), final(self).spec_printed())),
                    Err(e) => Err(e),
                },
            ),
    {
        let ghost recs = self.chunk@;
        let ghost init: MachineState = (seq![], seq![]);
        let ghost mut k: int = 0;
        proof {
            assert(recs.subrange(0, recs.len() as int) == recs);
            assert(self.state() == init) by {
                assert(views(self.stack@) =~= seq![]);
                assert(views(self.printed@) =~= seq![]);
            }
        }
        loop
            invariant
                self.chunk == old(self).chunk,
                self.chunk.wf(),
                recs == self.chunk@,
                recs == old(self).spec_chunk()@,
                init == (Seq::<ValueView>::empty(), Seq::<ValueView>::empty()),
                0 <= k <= recs.len(),
                self.ptr == offset(recs, k),
                self.values_wf(),
                forall|res: Result<MachineState, RuntimeError>|
                    #[trigger] runs(recs.subrange(k, recs.len() as int), self.state(), res) ==> runs(recs, init, res),
            decreases recs.len() - k,
        {
            proof {
                lemma_read_at(self.chunk, k);
            }
            let (op, line) = match self.chunk.read_opcode(self.ptr) {
                Some(x) => x,
                None => {
                    proof {
                        lemma_runs_empty(recs.subrange(k, recs.len() as int), self.state());
                        assert(runs(recs, init, Ok(self.state())));
                        assert(recs == old(self).spec_chunk()@);
                        assert(self.state() == (self.spec_stack(), self.spec_printed()));

                    }
                    return Ok(());
                },
            };
            proof {
                assert(k < recs.len());
            }
            if op == OpCode::Constant {
                let v = match self.chunk.read_value(self.ptr + INSTRUCTION_SIZE) {
                    Some((v, _)) => v,
                    None => {
                        proof {
                            assert(recs[k] is Const);
                        }
                        return Err(RuntimeError { line, kind: VmError::MalformedChunk });
                    },
                };
                let ghost s = self.state();
                self.push(v);
                self.ptr = self.ptr + INSTRUCTION_SIZE + VALUE_SIZE;
                proof {
                    assert(recs[k] is Const);
                    assert(v@ == recs[k]->value);
                    lemma_const_step(v@, line, s);
                    assert(recs[k] == Instr::Const { value: v@, line });
                    lemma_step_ok(recs, k, s, self.state(), init);
                    k = k + 1;
                }
            } else {
                let ghost s = self.state();
                let res = self.execute(op, floats);
                self.ptr = self.ptr + INSTRUCTION_SIZE;
                proof {
                    assert(recs[k] == Instr::Op { op, line });
                }
                match res {
                    Ok(()) => {
                        proof {
                            lemma_step_line(op, 0, line, s, Ok(self.state()));
                            lemma_step_ok(recs, k, s, self.state(), init);
                            k = k + 1;
                        }
                    },
                    Err(kind) => {
                        proof {
                            lemma_step_line(op, 0, line, s, Err(kind));
                            lemma_step_err(recs, k, s, kind, init);
                        }
                        return Err(RuntimeError { line, kind });
                    },
                }
            }
        }
    }

    /// Gives up the machine for its stack and what it printed.
    pub fn finish(self) -> (r: (Vec<Value>, Vec<Value>))
        ensures
            views(r.0@) == self.spec_stack(),
            views(r.1@) == self.spec_printed(),
    {
        (self.stack, self.printed)
    }

    fn pop(&mut self) -> (r: Result<Value, VmError>)
        ensures
            final(self).chunk == old(self).chunk,
            final(self).printed == old(self).printed,
            final(self).ptr == old(self).ptr,
            match r {
                Ok(v) => old(self).stack@.len() >= 1 && v == old(self).stack@.last() && final(self).stack@
                    == old(self).stack@.drop_last(),
                Err(e) => e == VmError::StackUnderflow && old(self).stack@.len() == 0 && final(self).stack@
                    == old(self).stack@,
            },
    {
        match self.stack.pop() {
            Some(v) => Ok(v),
            None => Err(VmError::StackUnderflow),
        }
    }
}

} // verus!
