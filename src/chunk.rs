use vstd::bytes::*;
use vstd::prelude::*;
use vstd::slice::slice_subrange;

use crate::opcode::{tag_of, OpCode};
use crate::value::{Value, ValueView};

verus! {

/// Bytes taken by an opcode tag.
pub const OPCODE_SIZE: usize = 1;

/// Bytes taken by a line number.
pub const LINE_SIZE: usize = 4;

/// Bytes taken by an opcode record: the tag, then the line.
pub const INSTRUCTION_SIZE: usize = 5;

/// Bytes taken by the payload of a constant record: the index of its value.
pub const VALUE_SIZE: usize = 8;

/// The capacity that a chunk starts with unless told otherwise.
pub const DEFAULT_CAPACITY: usize = 1024;

/// One record of a chunk, as the chunk's model sees it.
pub enum Instr {
    Op { op: OpCode, line: u32 },
    Const { value: ValueView, line: u32 },
}

impl Instr {
    pub open spec fn opcode(self) -> OpCode {
        match self {
            Instr::Op { op, .. } => op,
            Instr::Const { .. } => OpCode::Constant,
        }
    }

    pub open spec fn line(self) -> u32 {
        match self {
            Instr::Op { line, .. } => line,
            Instr::Const { line, .. } => line,
        }
    }

    /// Bytes that the record takes in a chunk.
    pub open spec fn width(self) -> nat {
        match self {
            Instr::Op { .. } => INSTRUCTION_SIZE as nat,
            Instr::Const { .. } => (INSTRUCTION_SIZE + VALUE_SIZE) as nat,
        }
    }
}

/// The opcode that a byte encodes, if any.
pub open spec fn op_of_tag(b: u8) -> Option<OpCode> {
    if b == 0 {
        Some(OpCode::Return)
    } else if b == 1 {
        Some(OpCode::Constant)
    } else if b == 2 {
        Some(OpCode::Negate)
    } else if b == 3 {
        Some(OpCode::Print)
    } else if b == 4 {
        Some(OpCode::Equal)
    } else if b == 5 {
        Some(OpCode::Greater)
    } else if b == 6 {
        Some(OpCode::Less)
    } else if b == 7 {
        Some(OpCode::Add)
    } else if b == 8 {
        Some(OpCode::Subtract)
    } else if b == 9 {
        Some(OpCode::Multiply)
    } else if b == 10 {
        Some(OpCode::Divide)
    } else {
        None
    }
}

/// How many constant records a sequence holds.
pub open spec fn count_consts(recs: Seq<Instr>) -> nat
    decreases recs.len(),
{
    if recs.len() == 0 {
        0
    } else {
        count_consts(recs.drop_last()) + if recs.last() is Const {
            1nat
        } else {
            0nat
        }
    }
}

/// The values of the constant records, in order.
pub open spec fn const_values(recs: Seq<Instr>) -> Seq<ValueView>
    decreases recs.len(),
{
    if recs.len() == 0 {
        seq![]
    } else {
        match recs.last() {
            Instr::Const { value, .. } => const_values(recs.drop_last()).push(value),
            Instr::Op { .. } => const_values(recs.drop_last()),
        }
    }
}

/// The bytes of one record; a constant's payload is the index of its value.
pub open spec fn encode_record(r: Instr, index: nat) -> Seq<u8> {
    match r {
        Instr::Op { op, line } => seq![tag_of(op)] + spec_u32_to_le_bytes(line),
        Instr::Const { line, .. } => seq![tag_of(OpCode::Constant)] + spec_u32_to_le_bytes(line)
            + spec_u64_to_le_bytes(index as u64),
    }
}

/// The bytes of a sequence of records.
pub open spec fn encode(recs: Seq<Instr>) -> Seq<u8>
    decreases recs.len(),
{
    if recs.len() == 0 {
        seq![]
    } else {
        encode(recs.drop_last()) + encode_record(recs.last(), count_consts(recs.drop_last()))
    }
}

/// The byte at which record `k` starts.
pub open spec fn offset(recs: Seq<Instr>, k: int) -> nat
    decreases k,
{
    if k <= 0 {
        0
    } else {
        offset(recs, k - 1) + recs[k - 1].width()
    }
}

/// The record that starts at byte `i` read as an opcode and its line, if it fits.
pub open spec fn opcode_at(bytes: Seq<u8>, i: int) -> Option<(OpCode, u32)> {
    if i < 0 || i + INSTRUCTION_SIZE > bytes.len() {
        None
    } else {
        match op_of_tag(bytes[i]) {
            Some(op) => Some((op, spec_u32_from_le_bytes(bytes.subrange(i + 1, i + 5)))),
            None => None,
        }
    }
}

/// The constant index stored at byte `i`, if a payload fits there after a line.
pub open spec fn index_at(bytes: Seq<u8>, i: int) -> Option<u64> {
    if i < LINE_SIZE || i + VALUE_SIZE > bytes.len() {
        None
    } else {
        Some(spec_u64_from_le_bytes(bytes.subrange(i, i + 8)))
    }
}

/// The line stored in the four bytes before byte `i`.
pub open spec fn line_before(bytes: Seq<u8>, i: int) -> u32 {
    spec_u32_from_le_bytes(bytes.subrange(i - 4, i))
}

/// The capacity after one growth step: twice as large, saturating at `usize::MAX`.
pub open spec fn doubled(cap: int) -> int {
    if cap > usize::MAX / 2 {
        usize::MAX as int
    } else {
        cap * 2
    }
}

/// The capacity after growth for `needed` bytes: doubled until it holds them.
pub open spec fn grown_capacity(cap: int, needed: int) -> int
    decreases usize::MAX - cap,
{
    if cap >= needed || cap < 1 || cap >= usize::MAX {
        cap
    } else {
        grown_capacity(doubled(cap), needed)
    }
}

/// An append-only buffer of records: opcode records `[tag][line]` and constant records
/// `[Constant tag][line][index]`, whose index points into a table of values.
pub struct Chunk {
    code: Vec<u8>,
    constants: Vec<Value>,
    capacity: usize,
    records: Ghost<Seq<Instr>>,
}

impl View for Chunk {
    type V = Seq<Instr>;

    closed spec fn view(&self) -> Seq<Instr> {
        self.records@
    }
}

impl Chunk {
    /// The bytes in use.
    pub closed spec fn bytes(&self) -> Seq<u8> {
        self.code@
    }

    /// The table of constant values.
    pub closed spec fn constant_values(&self) -> Seq<ValueView> {
        self.constants@.map_values(|v: Value| v@)
    }

    pub closed spec fn spec_capacity(&self) -> nat {
        self.capacity as nat
    }

    /// What a reader sees at byte `i`: an opcode and its line.
    pub open spec fn opcode_at(&self, i: int) -> Option<(OpCode, u32)> {
        opcode_at(self.bytes(), i)
    }

    /// What a reader sees at byte `i`: a constant's value and the line before it.
    pub open spec fn value_at(&self, i: int) -> Option<(ValueView, u32)> {
        match index_at(self.bytes(), i) {
            Some(j) => if j < self.constant_values().len() {
                Some((self.constant_values()[j as int], line_before(self.bytes(), i)))
            } else {
                None
            },
            None => None,
        }
    }

    pub closed spec fn wf(&self) -> bool {
        &&& self.code@ == encode(self.records@)
        &&& self.constant_values() == const_values(self.records@)
        &&& forall|j: int| 0 <= j < self.constants@.len() ==> #[trigger] self.constants@[j].wf()
        &&& forall|k: int|
            0 <= k < self.records@.len() ==> (#[trigger] self.records@[k] matches Instr::Op { op, .. }
                ==> op != OpCode::Constant)
        &&& self.constants@.len() <= self.code@.len() <= self.capacity
        &&& self.capacity >= 1
    }

    /// An empty chunk; a capacity of zero is taken as one.
    pub fn new(capacity: usize) -> (r: Chunk)
        ensures
            r.wf(),
            r@ == Seq::<Instr>::empty(),
            r.bytes().len() == 0,
            r.spec_capacity() == if capacity == 0 { 1 } else { capacity },
    {
        let c = Chunk {
            code: Vec::new(),
            constants: Vec::new(),
            capacity: if capacity == 0 { 1 } else { capacity },
            records: Ghost(Seq::empty()),
        };
        proof {
            assert(c.constant_values() =~= Seq::<ValueView>::empty());
        }
        c
    }

    /// Bytes in use.
    pub fn size(&self) -> (r: usize)
        ensures
            r == self.bytes().len(),
    {
        self.code.len()
    }

    pub fn capacity(&self) -> (r: usize)
        ensures
            r == self.spec_capacity(),
    {
        self.capacity
    }

    /// Doubles the capacity, saturating at `usize::MAX`.
    fn resize(&mut self)
        ensures
            final(self).capacity == doubled(old(self).capacity as int),
            final(self).code == old(self).code,
            final(self).constants == old(self).constants,
            final(self).records == old(self).records,
    {
        if self.capacity > usize::MAX / 2 {
            self.capacity = usize::MAX;
        } else {
            self.capacity = self.capacity * 2;
        }
    }

    /// Doubles the capacity until `extra` more bytes fit.
    fn reserve(&mut self, extra: usize)
        requires
            old(self).wf(),
            old(self).code@.len() + extra <= usize::MAX,
        ensures
            final(self).wf(),
            final(self).code@ == old(self).code@,
            final(self).constants@ == old(self).constants@,
            final(self).records@ == old(self).records@,
            final(self).code@.len() + extra <= final(self).capacity,
            final(self).capacity == grown_capacity(old(self).capacity as int, old(self).code@.len() + extra),
    {
        let needed: usize = self.code.len() + extra;
        while self.capacity < needed
            invariant
                self.wf(),
                self.code@ == old(self).code@,
                self.constants@ == old(self).constants@,
                self.records@ == old(self).records@,
                needed == self.code@.len() + extra,
                grown_capacity(self.capacity as int, needed as int) == grown_capacity(
                    old(self).capacity as int,
                    needed as int,
                ),
            decreases usize::MAX - self.capacity,
        {
            self.resize();
        }
    }

    /// Writes the tag and the line of a record.
    fn write_header(&mut self, op: OpCode, line: u32)
        requires
            old(self).code@.len() + INSTRUCTION_SIZE <= old(self).capacity,
        ensures
            final(self).code@ == old(self).code@ + (seq![tag_of(op)] + spec_u32_to_le_bytes(line)),
            final(self).constants@ == old(self).constants@,
            final(self).records@ == old(self).records@,
            final(self).capacity == old(self).capacity,
    {
        self.code.push(op.tag());
        let mut bytes = u32_to_le_bytes(line);
        self.code.append(&mut bytes);
        proof {
            assert(old(self).code@.push(tag_of(op)) + spec_u32_to_le_bytes(line) =~= old(self).code@
                + (seq![tag_of(op)] + spec_u32_to_le_bytes(line)));
        }
    }

    /// Appends the record `[op][line]`. Earlier records keep their bytes.
    pub fn add_opcode(&mut self, op: OpCode, line: u32)
        requires
            old(self).wf(),
            op != OpCode::Constant,
            old(self).bytes().len() + INSTRUCTION_SIZE <= usize::MAX,
        ensures
            final(self).wf(),
            final(self)@ == old(self)@.push(Instr::Op { op, line }),
            final(self).bytes().len() <= final(self).spec_capacity(),
            final(self).spec_capacity() == grown_capacity(
                old(self).spec_capacity() as int,
                old(self).bytes().len() + INSTRUCTION_SIZE,
            ),
            final(self).bytes() == old(self).bytes() + encode_record(
                Instr::Op { op, line },
                count_consts(old(self)@),
            ),
    {
        self.reserve(INSTRUCTION_SIZE);
        self.write_header(op, line);
        let ghost old_recs = self.records@;
        self.records = Ghost(self.records@.push(Instr::Op { op, line }));
        proof {
            lemma_auto_spec_u32_to_from_le_bytes();
            lemma_auto_spec_u64_to_from_le_bytes();
            assert(self.records@.drop_last() == old_recs);
            assert(const_values(self.records@) == const_values(old_recs));
            assert(count_consts(self.records@) == count_consts(old_recs));
            assert(encode(self.records@) == encode(old_recs) + encode_record(
                Instr::Op { op, line },
                count_consts(old_recs),
            ));
            assert(self.code@ == encode(self.records@));
            assert(self.constant_values() == old(self).constant_values());
            assert(self.constant_values() == const_values(self.records@));
            assert(self.code@.len() <= self.capacity);
            assert forall|k: int| 0 <= k < self.records@.len() implies (
            #[trigger] self.records@[k] matches Instr::Op { op, .. } ==> op != OpCode::Constant) by {
                if k < old_recs.len() {
                    assert(self.records@[k] == old_recs[k]);
                }
            }
        }
    }

    /// Appends a constant record: its `[Constant][line]` header, then its payload.
    pub fn add_value(&mut self, value: Value, line: u32)
        requires
            old(self).wf(),
            value.wf(),
            old(self).bytes().len() + INSTRUCTION_SIZE + VALUE_SIZE <= usize::MAX,
        ensures
            final(self).wf(),
            final(self)@ == old(self)@.push(Instr::Const { value: value@, line }),
            final(self).bytes().len() <= final(self).spec_capacity(),
            final(self).spec_capacity() == grown_capacity(
                old(self).spec_capacity() as int,
                old(self).bytes().len() + INSTRUCTION_SIZE + VALUE_SIZE,
            ),
            final(self).bytes() == old(self).bytes() + encode_record(
                Instr::Const { value: value@, line },
                count_consts(old(self)@),
            ),
    {
        let ghost old_recs = self.records@;
        proof {
            lemma_consts_len(old_recs);
            assert(self.constants@.len() == self.constant_values().len());
        }
        self.reserve(INSTRUCTION_SIZE + VALUE_SIZE);
        self.write_header(OpCode::Constant, line);
        let index: u64 = self.constants.len() as u64;
        let mut bytes = u64_to_le_bytes(index);
        let ghost before = self.code@;
        self.code.append(&mut bytes);
        self.constants.push(value);
        self.records = Ghost(self.records@.push(Instr::Const { value: value@, line }));
        proof {
            lemma_auto_spec_u32_to_from_le_bytes();
            lemma_auto_spec_u64_to_from_le_bytes();
            assert(self.records@.drop_last() == old_recs);
            assert(self.code@ =~= old(self).code@ + encode_record(
                Instr::Const { value: value@, line },
                count_consts(old_recs),
            ));
            assert(self.constant_values() =~= old(self).constant_values().push(value@));
            assert forall|k: int| 0 <= k < self.records@.len() implies (
            #[trigger] self.records@[k] matches Instr::Op { op, .. } ==> op != OpCode::Constant) by {
                if k < old_recs.len() {
                    assert(self.records@[k] == old_recs[k]);
                }
            }
            assert forall|j: int| 0 <= j < self.constants@.len() implies #[trigger] self.constants@[j].wf() by {
                if j < old(self).constants@.len() {
                    assert(self.constants@[j] == old(self).constants@[j]);
                }
            }
        }
    }

    /// The opcode record at byte `index`, or `None` where none fits.
    pub fn read_opcode(&self, index: usize) -> (r: Option<(OpCode, u32)>)
        ensures
            r == self.opcode_at(index as int),
    {
        if index > self.code.len() || self.code.len() - index < INSTRUCTION_SIZE {
            return None;
        }
        match OpCode::from_tag(self.code[index]) {
            Some(op) => {
                let line = u32_from_le_bytes(slice_subrange(self.code.as_slice(), index + 1, index + 5));
                proof {
                    assert(op_of_tag(self.code@[index as int]) == Some(op));
                }
                Some((op, line))
            },
            None => {
                proof {
                    assert(op_of_tag(self.code@[index as int]) is None);
                }
                None
            },
        }
    }

    /// The constant whose payload starts at byte `index`, with the line stored just
    /// before it, or `None` where no payload fits.
    pub fn read_value(&self, index: usize) -> (r: Option<(Value, u32)>)
        requires
            self.wf(),
        ensures
            match r {
                Some((v, line)) => self.value_at(index as int) == Some((v@, line)) && v.wf(),
                None => self.value_at(index as int) is None,
            },
    {
        if index < LINE_SIZE || index > self.code.len() || self.code.len() - index < VALUE_SIZE {
            return None;
        }
        let j: u64 = u64_from_le_bytes(slice_subrange(self.code.as_slice(), index, index + 8));
        if j >= self.constants.len() as u64 {
            return None;
        }
        let line = u32_from_le_bytes(slice_subrange(self.code.as_slice(), index - 4, index));
        proof {
            assert(self.constants@[j as int].wf());
        }
        Some((self.constants[j as usize].duplicate(), line))
    }
}

proof fn lemma_consts_len(recs: Seq<Instr>)
    ensures
        const_values(recs).len() == count_consts(recs),
    decreases recs.len(),
{
    if recs.len() > 0 {
        lemma_consts_len(recs.drop_last());
    }
}

proof fn lemma_offset_prefix(recs: Seq<Instr>, n: int, k: int)
    requires
        0 <= k <= n <= recs.len(),
    ensures
        offset(recs, k) == offset(recs.subrange(0, n), k),
    decreases k,
{
    if k > 0 {
        lemma_offset_prefix(recs, n, k - 1);
    }
}

proof fn lemma_encode_len(recs: Seq<Instr>)
    ensures
        encode(recs).len() == offset(recs, recs.len() as int),
    decreases recs.len(),
{
    if recs.len() > 0 {
        let pre = recs.drop_last();
        lemma_encode_len(pre);
        lemma_offset_prefix(recs, pre.len() as int, pre.len() as int);
        lemma_auto_spec_u32_to_from_le_bytes();
        lemma_auto_spec_u64_to_from_le_bytes();
    }
}

proof fn lemma_record_bytes(recs: Seq<Instr>, k: int)
    requires
        0 <= k < recs.len(),
    ensures
        offset(recs, k) + recs[k].width() <= encode(recs).len(),
        encode(recs).subrange(offset(recs, k) as int, (offset(recs, k) + recs[k].width()) as int) == encode_record(
            recs[k],
            count_consts(recs.subrange(0, k)),
        ),
    decreases recs.len(),
{
    let pre = recs.drop_last();
    let n = pre.len() as int;
    lemma_auto_spec_u32_to_from_le_bytes();
    lemma_auto_spec_u64_to_from_le_bytes();
    lemma_encode_len(pre);
    lemma_encode_len(recs);
    lemma_offset_prefix(recs, n, k);
    if k < n {
        lemma_record_bytes(pre, k);
        assert(pre.subrange(0, k) == recs.subrange(0, k));
        assert(pre == recs.subrange(0, n));
        lemma_offset_prefix(recs, n, n);
        assert(encode(recs).subrange(offset(recs, k) as int, (offset(recs, k) + recs[k].width()) as int)
            == encode(pre).subrange(offset(recs, k) as int, (offset(recs, k) + recs[k].width()) as int));
    } else {
        assert(pre == recs.subrange(0, k));
        assert(pre == recs.subrange(0, n));
        assert(encode(recs).subrange(offset(recs, k) as int, (offset(recs, k) + recs[k].width()) as int)
            =~= encode_record(recs[k], count_consts(pre)));
    }
}

proof fn lemma_const_index(recs: Seq<Instr>, k: int)
    requires
        0 <= k < recs.len(),
        recs[k] is Const,
    ensures
        count_consts(recs.subrange(0, k)) < const_values(recs).len(),
        const_values(recs)[count_consts(recs.subrange(0, k)) as int] == recs[k]->value,
    decreases recs.len(),
{
    let pre = recs.drop_last();
    let n = pre.len() as int;
    lemma_consts_len(pre);
    lemma_consts_len(recs);
    if k < n {
        lemma_const_index(pre, k);
        assert(pre.subrange(0, k) == recs.subrange(0, k));
    } else {
        assert(pre == recs.subrange(0, k));
    }
}

/// Reading a chunk positionally gives back, record by record and in order, what was
/// appended to it, and the records end exactly at the chunk's size.
pub proof fn lemma_round_trip(c: &Chunk)
    requires
        c.wf(),
    ensures
        offset(c@, c@.len() as int) == c.bytes().len(),
        forall|k: int|
            0 <= k < c@.len() ==> c.opcode_at(#[trigger] offset(c@, k) as int) == Some(
                (c@[k].opcode(), c@[k].line()),
            ),
        forall|k: int|
            0 <= k < c@.len() && (#[trigger] c@[k]) is Const ==> c.value_at(
                offset(c@, k) + INSTRUCTION_SIZE,
            ) == Some((c@[k]->value, c@[k].line())),
        forall|k: int| 0 <= k < c@.len() ==> ((#[trigger] c@[k]).opcode() == OpCode::Constant <==> c@[k] is Const),
{
    lemma_encode_len(c@);
    lemma_auto_spec_u32_to_from_le_bytes();
    lemma_auto_spec_u64_to_from_le_bytes();
    assert forall|k: int| 0 <= k < c@.len() implies c.opcode_at(#[trigger] offset(c@, k) as int) == Some(
        (c@[k].opcode(), c@[k].line()),
    ) by {
        lemma_record_bytes(c@, k);
        let o = offset(c@, k) as int;
        let rb = encode_record(c@[k], count_consts(c@.subrange(0, k)));
        assert(c.bytes()[o] == rb[0]);
        assert(c.bytes().subrange(o + 1, o + 5) =~= rb.subrange(1, 5));
        assert(rb.subrange(1, 5) =~= spec_u32_to_le_bytes(c@[k].line()));
    }
    assert forall|k: int| 0 <= k < c@.len() && (#[trigger] c@[k]) is Const implies c.value_at(
        offset(c@, k) + INSTRUCTION_SIZE,
    ) == Some((c@[k]->value, c@[k].line())) by {
        lemma_record_bytes(c@, k);
        lemma_const_index(c@, k);
        let o = offset(c@, k) as int;
        let j = count_consts(c@.subrange(0, k));
        let rb = encode_record(c@[k], j);
        assert(c.bytes().subrange(o + 5, o + 13) =~= rb.subrange(5, 13));
        assert(rb.subrange(5, 13) =~= spec_u64_to_le_bytes(j as u64));
        assert(c.bytes().subrange(o + 1, o + 5) =~= rb.subrange(1, 5));
        assert(rb.subrange(1, 5) =~= spec_u32_to_le_bytes(c@[k].line()));
        assert(c.constants@.len() == c.constant_values().len());
        assert(j < 0x1_0000_0000_0000_0000);
    }
}

/// The line read with a constant's value is the line of the `Constant` record just
/// before it, which is the line it was appended with.
pub proof fn lemma_line_preservation(c: &Chunk, k: int)
    requires
        c.wf(),
        0 <= k < c@.len(),
        c@[k] is Const,
    ensures
        c.value_at(offset(c@, k) + INSTRUCTION_SIZE) matches Some((_, line)) && c.opcode_at(
            offset(c@, k) as int,
        ) == Some((OpCode::Constant, line)) && line == c@[k].line(),
{
    lemma_round_trip(c);
    assert(c.opcode_at(offset(c@, k) as int) == Some((c@[k].opcode(), c@[k].line())));
}

/// What a reader finds at record `k` of a chunk.
pub proof fn lemma_read_at(c: &Chunk, k: int)
    requires
        c.wf(),
        0 <= k <= c@.len(),
    ensures
        c.bytes().len() <= usize::MAX,
        k == c@.len() ==> offset(c@, k) == c.bytes().len(),
        k < c@.len() ==> c.opcode_at(offset(c@, k) as int) == Some((c@[k].opcode(), c@[k].line())),
        k < c@.len() ==> (c@[k].opcode() == OpCode::Constant <==> c@[k] is Const),
        k < c@.len() && c@[k] is Const ==> c.value_at(offset(c@, k) + INSTRUCTION_SIZE) == Some(
            (c@[k]->value, c@[k].line()),
        ),
{
    lemma_round_trip(c);
    if k < c@.len() {
        assert(c.opcode_at(offset(c@, k) as int) == Some((c@[k].opcode(), c@[k].line())));
        assert(c@[k].opcode() == OpCode::Constant <==> c@[k] is Const);
    }
}

/// One line of a chunk's listing: where a record starts, its opcode and line, and for a
/// constant its value.
#[derive(Debug, Clone, PartialEq)]
pub struct Listing {
    pub offset: usize,
    pub op: OpCode,
    pub line: u32,
    pub value: Option<Value>,
}

/// Whether a listing line shows a record that starts at byte `at`.
pub open spec fn shows(l: Listing, r: Instr, at: nat) -> bool {
    &&& l.offset == at
    &&& l.op == r.opcode()
    &&& l.line == r.line()
    &&& match r {
        Instr::Const { value, .. } => l.value matches Some(v) && v@ == value,
        Instr::Op { .. } => l.value is None,
    }
}

/// The records of a chunk, read from its first byte to its last.
pub fn disassemble(chunk: &Chunk) -> (r: Vec<Listing>)
    requires
        chunk.wf(),
    ensures
        r@.len() == chunk@.len(),
        forall|k: int| 0 <= k < r@.len() ==> shows(#[trigger] r@[k], chunk@[k], offset(chunk@, k)),
{
    let ghost recs = chunk@;
    let mut out: Vec<Listing> = Vec::new();
    let mut index: usize = 0;
    loop
        invariant
            chunk.wf(),
            recs == chunk@,
            out@.len() <= recs.len(),
            index == offset(recs, out@.len() as int),
            forall|k: int| 0 <= k < out@.len() ==> shows(#[trigger] out@[k], recs[k], offset(recs, k)),
        decreases recs.len() - out@.len(),
    {
        let ghost k = out@.len() as int;
        proof {
            lemma_read_at(chunk, k);
        }
        let (op, line) = match chunk.read_opcode(index) {
            Some(x) => x,
            None => {
                return out;
            },
        };
        let at = index;
        let value = if op == OpCode::Constant {
            index = index + INSTRUCTION_SIZE + VALUE_SIZE;
            match chunk.read_value(at + INSTRUCTION_SIZE) {
                Some((v, _)) => Some(v),
                None => {
                    return out;
                },
            }
        } else {
            index = index + INSTRUCTION_SIZE;
            None
        };
        out.push(Listing { offset: at, op, line, value });
        proof {
            assert(shows(out@[k], recs[k], offset(recs, k)));
            assert forall|j: int| 0 <= j < out@.len() implies shows(#[trigger] out@[j], recs[j], offset(recs, j)) by {
                if j < k {
                    assert(out@[j] == out@.drop_last()[j]);
                }
            }
        }
    }
}

} // verus!
