//! Slot numbers, the types of connections and the scalar values that seed
//! constant sources.

use vstd::prelude::*;
use vstd::std_specs::cmp::PartialEqSpecImpl;

verus! {

/// Number of an input slot of a node or flow.
#[derive(Clone, Copy, PartialEq, Eq, PartialOrd, Ord, Structural, Debug)]
pub struct InputNo(pub u32);

impl From<u32> for InputNo {
    fn from(n: u32) -> (r: Self) {
        InputNo(n)
    }
}

impl vstd::std_specs::convert::FromSpecImpl<u32> for InputNo {
    open spec fn obeys_from_spec() -> bool {
        true
    }

    open spec fn from_spec(n: u32) -> Self {
        InputNo(n)
    }
}

/// Number of an output slot of a node or flow.
#[derive(Clone, Copy, PartialEq, Eq, PartialOrd, Ord, Structural, Debug)]
pub struct OutputNo(pub u32);

impl From<u32> for OutputNo {
    fn from(n: u32) -> (r: Self) {
        OutputNo(n)
    }
}

impl vstd::std_specs::convert::FromSpecImpl<u32> for OutputNo {
    open spec fn obeys_from_spec() -> bool {
        true
    }

    open spec fn from_spec(n: u32) -> Self {
        OutputNo(n)
    }
}

/// The kind of scalar that a connection carries.
#[derive(Clone, Copy, PartialEq, Eq, PartialOrd, Ord, Structural, Debug)]
pub enum PrimType {
    F32,
    C32,
    U32,
    I32,
}

/// The type of a connection. Two sampled types are the same only if both the
/// scalar kind and the Nyquist frequency agree, so joining two sample rates is
/// a type error.
#[derive(Clone, Copy, PartialEq, Eq, PartialOrd, Ord, Structural, Debug)]
pub enum Type {
    Sampled { ty: PrimType, f_nyq: u64 },
    Event(PrimType),
}

/// A single-precision number, held by its IEEE 754 bit pattern.
#[derive(Clone, Copy, Debug)]
pub struct F32(pub u32);

impl F32 {
    /// The bit pattern without its sign bit.
    pub open spec fn magnitude(self) -> u32 {
        self.0 & 0x7fff_ffffu32
    }

    /// Whether the pattern stands for a NaN.
    pub open spec fn is_nan(self) -> bool {
        self.magnitude() > 0x7f80_0000u32
    }

    /// Equality of numbers made total: every NaN equals every NaN, both
    /// zeros are equal, and any other two patterns are equal when they are
    /// the same.
    pub open spec fn same(self, other: F32) -> bool {
        if self.is_nan() || other.is_nan() {
            self.is_nan() && other.is_nan()
        } else if self.magnitude() == 0 || other.magnitude() == 0 {
            self.magnitude() == 0 && other.magnitude() == 0
        } else {
            self.0 == other.0
        }
    }

    pub fn from_bits(bits: u32) -> (r: Self)
        ensures
            r == F32(bits),
    {
        F32(bits)
    }

    pub fn to_bits(self) -> (r: u32)
        ensures
            r == self.0,
    {
        self.0
    }
}

impl PartialEq for F32 {
    fn eq(&self, other: &Self) -> (r: bool) {
        let a: u32 = self.0 & 0x7fff_ffffu32;
        let b: u32 = other.0 & 0x7fff_ffffu32;
        if a > 0x7f80_0000u32 || b > 0x7f80_0000u32 {
            a > 0x7f80_0000u32 && b > 0x7f80_0000u32
        } else if a == 0 || b == 0 {
            a == 0 && b == 0
        } else {
            self.0 == other.0
        }
    }
}

impl PartialEqSpecImpl for F32 {
    open spec fn obeys_eq_spec() -> bool {
        true
    }

    open spec fn eq_spec(&self, other: &Self) -> bool {
        self.same(*other)
    }
}

impl Eq for F32 {}

/// A complex number of two single-precision parts.
#[derive(Clone, Copy, Debug)]
pub struct C32 {
    pub re: F32,
    pub im: F32,
}

impl C32 {
    /// Equality of both parts, each as [`F32::same`] has it.
    pub open spec fn same(self, other: C32) -> bool {
        self.re.same(other.re) && self.im.same(other.im)
    }
}

impl PartialEq for C32 {
    fn eq(&self, other: &Self) -> (r: bool) {
        self.re == other.re && self.im == other.im
    }
}

impl PartialEqSpecImpl for C32 {
    open spec fn obeys_eq_spec() -> bool {
        true
    }

    open spec fn eq_spec(&self, other: &Self) -> bool {
        self.same(*other)
    }
}

impl Eq for C32 {}

/// A scalar of one of the four kinds.
#[derive(Clone, Copy, Debug)]
pub enum Value {
    F32(F32),
    C32(C32),
    U32(u32),
    I32(i32),
}

impl Value {
    /// The kind of the scalar.
    pub open spec fn kind(self) -> PrimType {
        match self {
            Value::F32(_) => PrimType::F32,
            Value::C32(_) => PrimType::C32,
            Value::U32(_) => PrimType::U32,
            Value::I32(_) => PrimType::I32,
        }
    }

    /// Equality of two scalars: the same kind, and equal as that kind has it.
    pub open spec fn same(self, other: Value) -> bool {
        match (self, other) {
            (Value::F32(a), Value::F32(b)) => a.same(b),
            (Value::C32(a), Value::C32(b)) => a.same(b),
            (Value::U32(a), Value::U32(b)) => a == b,
            (Value::I32(a), Value::I32(b)) => a == b,
            _ => false,
        }
    }

    #[allow(non_snake_case)]
    pub fn Type(&self) -> (r: PrimType)
        ensures
            r == self.kind(),
    {
        match self {
            Value::F32(_) => PrimType::F32,
            Value::C32(_) => PrimType::C32,
            Value::U32(_) => PrimType::U32,
            Value::I32(_) => PrimType::I32,
        }
    }
}

impl PartialEq for Value {
    fn eq(&self, other: &Self) -> (r: bool) {
        match (self, other) {
            (Value::F32(a), Value::F32(b)) => *a == *b,
            (Value::C32(a), Value::C32(b)) => *a == *b,
            (Value::U32(a), Value::U32(b)) => *a == *b,
            (Value::I32(a), Value::I32(b)) => *a == *b,
            _ => false,
        }
    }
}

impl PartialEqSpecImpl for Value {
    open spec fn obeys_eq_spec() -> bool {
        true
    }

    open spec fn eq_spec(&self, other: &Self) -> bool {
        self.same(*other)
    }
}

impl Eq for Value {}

/// [`Value::same`] is an equivalence relation.
pub proof fn lemma_same_value(a: Value, b: Value, c: Value)
    ensures
        a.same(a),
        a.same(b) ==> b.same(a),
        a.same(b) && b.same(c) ==> a.same(c),
{
}

} // verus!
