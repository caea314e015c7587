use vstd::prelude::*;

verus! {

/// Offset basis of the 64-bit FNV-1a hash.
pub const FNV_OFFSET_BASIS: u64 = 14695981039346656037;

/// Prime of the 64-bit FNV-1a hash.
pub const FNV_PRIME: u64 = 1099511628211;

/// The 64-bit FNV-1a hash of a byte string.
pub open spec fn fnv_hash(s: Seq<u8>) -> u64
    decreases s.len(),
{
    if s.len() == 0 {
        FNV_OFFSET_BASIS
    } else {
        (fnv_hash(s.drop_last()) ^ (s.last() as u64)).wrapping_mul(FNV_PRIME)
    }
}

/// A heap string of the language: its bytes and their hash.
#[derive(Debug, Clone, PartialEq)]
pub struct ObjString {
    data: Vec<u8>,
    hash: u64,
}

impl View for ObjString {
    type V = Seq<u8>;

    closed spec fn view(&self) -> Seq<u8> {
        self.data@
    }
}

impl ObjString {
    /// The stored hash is the hash of the stored bytes.
    pub closed spec fn wf(&self) -> bool {
        self.hash == fnv_hash(self.data@)
    }

    pub fn new(data: Vec<u8>) -> (r: ObjString)
        ensures
            r@ == data@,
            r.wf(),
    {
        let hash = Self::compute_hash(&data);
        ObjString { data, hash }
    }

    /// The concatenation of two strings, as a new string.
    pub fn add(&self, other: &Self) -> (r: ObjString)
        ensures
            r@ == self@ + other@,
            r.wf(),
    {
        let mut data: Vec<u8> = self.data.clone();
        let mut i: usize = 0;
        while i < other.data.len()
            invariant
                i <= other.data@.len(),
                data@ == self.data@ + other.data@.subrange(0, i as int),
            decreases other.data@.len() - i,
        {
            data.push(other.data[i]);
            i = i + 1;
            assert(other.data@.subrange(0, i as int) == other.data@.subrange(0, i - 1).push(
                other.data@[i - 1],
            ));
        }
        assert(other.data@.subrange(0, i as int) == other.data@);
        ObjString::new(data)
    }

    pub fn get_data(&self) -> (r: &Vec<u8>)
        ensures
            r@ == self@,
    {
        &self.data
    }

    pub fn get_hash(&self) -> (r: u64)
        requires
            self.wf(),
        ensures
            r == fnv_hash(self@),
    {
        self.hash
    }

    /// The FNV-1a hash of `data`.
    pub fn compute_hash(data: &Vec<u8>) -> (r: u64)
        ensures
            r == fnv_hash(data@),
    {
        let mut hash: u64 = FNV_OFFSET_BASIS;
        let mut i: usize = 0;
        while i < data.len()
            invariant
                i <= data@.len(),
                hash == fnv_hash(data@.subrange(0, i as int)),
            decreases data@.len() - i,
        {
            proof {
                let s = data@.subrange(0, i + 1);
                assert(s.drop_last() == data@.subrange(0, i as int));
            }
            hash = (hash ^ (data[i] as u64)).wrapping_mul(FNV_PRIME);
            i = i + 1;
        }
        assert(data@.subrange(0, i as int) == data@);
        hash
    }

    /// Whether two strings hold the same bytes; the hashes are compared first.
    pub fn same_as(&self, other: &Self) -> (r: bool)
        requires
            self.wf(),
            other.wf(),
        ensures
            r == (self@ == other@),
    {
        if self.hash != other.hash {
            return false;
        }
        if self.data.len() != other.data.len() {
            return false;
        }
        let mut i: usize = 0;
        while i < self.data.len()
            invariant
                i <= self.data@.len(),
                self.data@.len() == other.data@.len(),
                forall|k: int| 0 <= k < i ==> self.data@[k] == other.data@[k],
            decreases self.data@.len() - i,
        {
            if self.data[i] != other.data[i] {
                return false;
            }
            i = i + 1;
        }
        assert(self.data@ =~= other.data@);
        true
    }
}

/// The four arithmetic operators of the language.
#[derive(Debug, Clone, Copy, PartialEq, Eq, Structural)]
pub enum Arith {
    Add,
    Subtract,
    Multiply,
    Divide,
}

/// Why an operation on values failed.
#[derive(Debug, Clone, Copy, PartialEq, Eq, Structural)]
pub enum OpError {
    /// The operands have types that the operator does not take.
    InvalidOperands,
    /// Only numbers and booleans can be negated.
    NotNegatable,
    /// Integer division by zero.
    DivisionByZero,
    /// An integer result does not fit in 64 bits.
    Overflow,
}

/// Floating-point arithmetic, which the host provides: values of type `Float` are held
/// here as IEEE-754 bit patterns, and every operation that rounds is asked of the host.
pub trait FloatArith {
    /// The bits of the double nearest to a decimal literal such as `3.14`.
    fn parse_float(&self, lexeme: &[u8]) -> u64;

    /// The bits of the double nearest to an integer.
    fn int_to_float(&self, i: i64) -> u64;

    /// The bits of `a op b` on doubles.
    fn float_op(&self, op: Arith, a: u64, b: u64) -> u64;
}

/// A value of the language.
#[derive(Debug, Clone, PartialEq)]
pub enum Value {
    Integer(i64),
    /// A double, as its IEEE-754 bit pattern.
    Float(u64),
    Boolean(bool),
    Object(ObjString),
    Null,
}

/// The mathematical model of a value: a string is its bytes.
pub enum ValueView {
    Integer(i64),
    Float(u64),
    Boolean(bool),
    Object(Seq<u8>),
    Null,
}

impl View for Value {
    type V = ValueView;

    open spec fn view(&self) -> ValueView {
        match self {
            Value::Integer(i) => ValueView::Integer(*i),
            Value::Float(f) => ValueView::Float(*f),
            Value::Boolean(b) => ValueView::Boolean(*b),
            Value::Object(s) => ValueView::Object(s@),
            Value::Null => ValueView::Null,
        }
    }
}

/// Whether the bits encode a NaN.
pub open spec fn is_nan(x: u64) -> bool {
    (x >> 52u64) & 0x7ff == 0x7ff && x & 0xf_ffff_ffff_ffff != 0
}

/// The place of a non-NaN double on the number line, as an integer that orders
/// doubles as their values do (both zeros map to 0).
pub open spec fn order_key(x: u64) -> int {
    let m = (x & 0x7fff_ffff_ffff_ffff) as int;
    if x >> 63u64 == 1 {
        -m
    } else {
        m
    }
}

/// `a < b` on doubles: false when either is NaN.
pub open spec fn float_lt(a: u64, b: u64) -> bool {
    !is_nan(a) && !is_nan(b) && order_key(a) < order_key(b)
}

/// `a == b` on doubles: false when either is NaN, true for the two zeros.
pub open spec fn float_eq(a: u64, b: u64) -> bool {
    !is_nan(a) && !is_nan(b) && order_key(a) == order_key(b)
}

/// The negation of a double: its sign bit flipped.
pub open spec fn float_neg(a: u64) -> u64 {
    a ^ 0x8000_0000_0000_0000
}

/// Integer division that rounds toward zero.
pub open spec fn trunc_div(a: int, b: int) -> int {
    let q = abs(a) / abs(b);
    if (a < 0) != (b < 0) {
        -q
    } else {
        q
    }
}

pub open spec fn abs(a: int) -> int {
    if a < 0 {
        -a
    } else {
        a
    }
}

pub open spec fn fits_i64(x: int) -> bool {
    i64::MIN <= x <= i64::MAX
}

/// The exact result of an operator on two integers, before the range check.
pub open spec fn int_arith_exact(op: Arith, a: int, b: int) -> int {
    match op {
        Arith::Add => a + b,
        Arith::Subtract => a - b,
        Arith::Multiply => a * b,
        Arith::Divide => trunc_div(a, b),
    }
}

/// Checked integer arithmetic: division by zero and results out of range fail.
pub open spec fn int_arith(op: Arith, a: i64, b: i64) -> Result<i64, OpError> {
    if op == Arith::Divide && b == 0 {
        Err(OpError::DivisionByZero)
    } else if fits_i64(int_arith_exact(op, a as int, b as int)) {
        Ok(int_arith_exact(op, a as int, b as int) as i64)
    } else {
        Err(OpError::Overflow)
    }
}

pub open spec fn is_number(v: ValueView) -> bool {
    v is Integer || v is Float
}

/// What `a op b` may give. Where a double takes part the host rounds, so only the
/// type of the result is fixed.
pub open spec fn arith_allows(op: Arith, a: ValueView, b: ValueView, r: Result<ValueView, OpError>) -> bool {
    match (a, b) {
        (ValueView::Integer(x), ValueView::Integer(y)) => r == match int_arith(op, x, y) {
            Ok(z) => Ok(ValueView::Integer(z)),
            Err(e) => Err::<ValueView, OpError>(e),
        },
        (ValueView::Object(x), ValueView::Object(y)) => r == if op == Arith::Add {
            Ok(ValueView::Object(x + y))
        } else {
            Err(OpError::InvalidOperands)
        },
        _ => if is_number(a) && is_number(b) {
            r matches Ok(ValueView::Float(_))
        } else {
            r == Err::<ValueView, OpError>(OpError::InvalidOperands)
        },
    }
}

/// What `a > b` (when `greater`) or `a < b` may give. Two integers and two doubles
/// compare exactly; an integer beside a double is first rounded by the host.
pub open spec fn compare_allows(greater: bool, a: ValueView, b: ValueView, r: Result<ValueView, OpError>) -> bool {
    match (a, b) {
        (ValueView::Integer(x), ValueView::Integer(y)) => r == Ok::<ValueView, OpError>(
            ValueView::Boolean(if greater { x > y } else { x < y }),
        ),
        (ValueView::Float(x), ValueView::Float(y)) => r == Ok::<ValueView, OpError>(
            ValueView::Boolean(if greater { float_lt(y, x) } else { float_lt(x, y) }),
        ),
        _ => if is_number(a) && is_number(b) {
            r matches Ok(ValueView::Boolean(_))
        } else {
            r == Err::<ValueView, OpError>(OpError::InvalidOperands)
        },
    }
}

/// Equality of values: same type and equal payload; an integer never equals a double.
pub open spec fn values_equal(a: ValueView, b: ValueView) -> bool {
    match (a, b) {
        (ValueView::Integer(x), ValueView::Integer(y)) => x == y,
        (ValueView::Float(x), ValueView::Float(y)) => float_eq(x, y),
        (ValueView::Boolean(x), ValueView::Boolean(y)) => x == y,
        (ValueView::Object(x), ValueView::Object(y)) => x == y,
        (ValueView::Null, ValueView::Null) => true,
        _ => false,
    }
}

/// Negation: arithmetic on numbers, logical on booleans.
pub open spec fn negate_spec(a: ValueView) -> Result<ValueView, OpError> {
    match a {
        ValueView::Integer(x) => if x == i64::MIN {
            Err(OpError::Overflow)
        } else {
            Ok(ValueView::Integer((-x) as i64))
        },
        ValueView::Float(x) => Ok(ValueView::Float(float_neg(x))),
        ValueView::Boolean(b) => Ok(ValueView::Boolean(!b)),
        _ => Err(OpError::NotNegatable),
    }
}

/// The model of an operation's outcome.
pub open spec fn result_view(r: Result<Value, OpError>) -> Result<ValueView, OpError> {
    match r {
        Ok(v) => Ok(v@),
        Err(e) => Err(e),
    }
}

fn float_key(x: u64) -> (r: i128)
    requires
        !is_nan(x),
    ensures
        r == order_key(x),
{
    let m: u64 = x & 0x7fff_ffff_ffff_ffff;
    if x >> 63u64 == 1 {
        -(m as i128)
    } else {
        m as i128
    }
}

fn float_nan(x: u64) -> (r: bool)
    ensures
        r == is_nan(x),
{
    (x >> 52u64) & 0x7ff == 0x7ff && x & 0xf_ffff_ffff_ffff != 0
}

/// `a < b` on doubles given as bits.
pub fn float_less(a: u64, b: u64) -> (r: bool)
    ensures
        r == float_lt(a, b),
{
    if float_nan(a) || float_nan(b) {
        false
    } else {
        float_key(a) < float_key(b)
    }
}

/// `a == b` on doubles given as bits.
pub fn float_equal(a: u64, b: u64) -> (r: bool)
    ensures
        r == float_eq(a, b),
{
    if float_nan(a) || float_nan(b) {
        false
    } else {
        float_key(a) == float_key(b)
    }
}

fn int_op(op: Arith, a: i64, b: i64) -> (r: Result<i64, OpError>)
    ensures
        r == int_arith(op, a, b),
{
    let x: i128 = a as i128;
    let y: i128 = b as i128;
    let z: i128 = match op {
        Arith::Add => x + y,
        Arith::Subtract => x - y,
        Arith::Multiply => {
            proof {
                assert(-0x8000_0000_0000_0000 <= x <= 0x7fff_ffff_ffff_ffff);
                assert(-0x8000_0000_0000_0000 <= y <= 0x7fff_ffff_ffff_ffff);
                assert(x * y <= 0x4000_0000_0000_0000_0000_0000_0000_0000) by (nonlinear_arith)
                    requires
                        -0x8000_0000_0000_0000 <= x <= 0x7fff_ffff_ffff_ffff,
                        -0x8000_0000_0000_0000 <= y <= 0x7fff_ffff_ffff_ffff,
                ;
                assert(x * y >= -0x4000_0000_0000_0000_0000_0000_0000_0000) by (nonlinear_arith)
                    requires
                        -0x8000_0000_0000_0000 <= x <= 0x7fff_ffff_ffff_ffff,
                        -0x8000_0000_0000_0000 <= y <= 0x7fff_ffff_ffff_ffff,
                ;
            }
            x * y
        },
        Arith::Divide => {
            if y == 0 {
                return Err(OpError::DivisionByZero);
            }
            let ax: i128 = if x < 0 { -x } else { x };
            let ay: i128 = if y < 0 { -y } else { y };
            let q: i128 = ax / ay;
            proof {
                assert(0 <= q <= ax) by (nonlinear_arith)
                    requires
                        q == ax / ay,
                        ax >= 0,
                        ay >= 1,
                ;
            }
            if (x < 0) != (y < 0) {
                -q
            } else {
                q
            }
        },
    };
    if i64::MIN as i128 <= z && z <= i64::MAX as i128 {
        Ok(z as i64)
    } else {
        Err(OpError::Overflow)
    }
}

impl Value {
    /// Strings held in the value carry the hash of their bytes.
    pub open spec fn wf(&self) -> bool {
        match self {
            Value::Object(s) => s.wf(),
            _ => true,
        }
    }

    /// A copy of the value.
    pub fn duplicate(&self) -> (r: Value)
        requires
            self.wf(),
        ensures
            r@ == self@,
            r.wf(),
    {
        match self {
            Value::Integer(i) => Value::Integer(*i),
            Value::Float(f) => Value::Float(*f),
            Value::Boolean(b) => Value::Boolean(*b),
            Value::Object(s) => Value::Object(ObjString::new(s.get_data().clone())),
            Value::Null => Value::Null,
        }
    }

    /// `self op other`: checked on integers, rounded by the host where a double takes
    /// part (an integer beside a double is converted first), and concatenation of two
    /// strings for `Add`.
    pub fn arith<F: FloatArith>(&self, op: Arith, other: &Value, floats: &F) -> (r: Result<Value, OpError>)
        requires
            self.wf(),
            other.wf(),
        ensures
            arith_allows(op, self@, other@, result_view(r)),
            r matches Ok(v) ==> v.wf(),
    {
        match (self, other) {
            (Value::Integer(a), Value::Integer(b)) => match int_op(op, *a, *b) {
                Ok(z) => Ok(Value::Integer(z)),
                Err(e) => Err(e),
            },
            (Value::Integer(a), Value::Float(b)) => Ok(Value::Float(floats.float_op(op, floats.int_to_float(*a), *b))),
            (Value::Float(a), Value::Integer(b)) => Ok(Value::Float(floats.float_op(op, *a, floats.int_to_float(*b)))),
            (Value::Float(a), Value::Float(b)) => Ok(Value::Float(floats.float_op(op, *a, *b))),
            (Value::Object(a), Value::Object(b)) => {
                if op == Arith::Add {
                    Ok(Value::Object(a.add(b)))
                } else {
                    Err(OpError::InvalidOperands)
                }
            },
            _ => Err(OpError::InvalidOperands),
        }
    }

    /// `self > other`.
    pub fn greater<F: FloatArith>(&self, other: &Value, floats: &F) -> (r: Result<Value, OpError>)
        ensures
            compare_allows(true, self@, other@, result_view(r)),
            r matches Ok(v) ==> v.wf(),
    {
        match (self, other) {
            (Value::Integer(a), Value::Integer(b)) => Ok(Value::Boolean(*a > *b)),
            (Value::Integer(a), Value::Float(b)) => Ok(Value::Boolean(float_less(*b, floats.int_to_float(*a)))),
            (Value::Float(a), Value::Integer(b)) => Ok(Value::Boolean(float_less(floats.int_to_float(*b), *a))),
            (Value::Float(a), Value::Float(b)) => Ok(Value::Boolean(float_less(*b, *a))),
            _ => Err(OpError::InvalidOperands),
        }
    }

    /// `self < other`.
    pub fn less<F: FloatArith>(&self, other: &Value, floats: &F) -> (r: Result<Value, OpError>)
        ensures
            compare_allows(false, self@, other@, result_view(r)),
            r matches Ok(v) ==> v.wf(),
    {
        match (self, other) {
            (Value::Integer(a), Value::Integer(b)) => Ok(Value::Boolean(*a < *b)),
            (Value::Integer(a), Value::Float(b)) => Ok(Value::Boolean(float_less(floats.int_to_float(*a), *b))),
            (Value::Float(a), Value::Integer(b)) => Ok(Value::Boolean(float_less(*a, floats.int_to_float(*b)))),
            (Value::Float(a), Value::Float(b)) => Ok(Value::Boolean(float_less(*a, *b))),
            _ => Err(OpError::InvalidOperands),
        }
    }

    /// Whether two values are equal in the language.
    pub fn equals(&self, other: &Value) -> (r: bool)
        requires
            self.wf(),
            other.wf(),
        ensures
            r == values_equal(self@, other@),
    {
        match (self, other) {
            (Value::Integer(a), Value::Integer(b)) => *a == *b,
            (Value::Float(a), Value::Float(b)) => float_equal(*a, *b),
            (Value::Boolean(a), Value::Boolean(b)) => *a == *b,
            (Value::Object(a), Value::Object(b)) => a.same_as(b),
            (Value::Null, Value::Null) => true,
            _ => false,
        }
    }

    /// The negation of a number or a boolean.
    pub fn negate(&self) -> (r: Result<Value, OpError>)
        ensures
            result_view(r) == negate_spec(self@),
            r matches Ok(v) ==> v.wf(),
    {
        match self {
            Value::Integer(a) => if *a == i64::MIN {
                Err(OpError::Overflow)
            } else {
                Ok(Value::Integer(-*a))
            },
            Value::Float(a) => Ok(Value::Float(*a ^ 0x8000_0000_0000_0000)),
            Value::Boolean(b) => Ok(Value::Boolean(!*b)),
            _ => Err(OpError::NotNegatable),
        }
    }
}

} // verus!
