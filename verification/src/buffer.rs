//! Buffers of samples and of events: the values that travel along the edges
//! of a flow, one block at a time.

use vstd::prelude::*;
use crate::value::{PrimType, Type, Value, C32, F32};

verus! {

/// A scalar that a sampled buffer can hold: it has a zero to clear with.
pub trait Sample: Copy + Sized {
    spec fn zero_value() -> Self;

    fn zero() -> (r: Self)
        ensures
            r == Self::zero_value(),
    ;
}

/// A sample kind whose sum is exact integer arithmetic, so that mixing two
/// buffers needs no rounding.
pub trait Summable: Sample {
    spec fn sum_of(self, other: Self) -> Self;

    fn sum(self, other: Self) -> (r: Self)
        ensures
            r == self.sum_of(other),
    ;
}

impl Sample for F32 {
    open spec fn zero_value() -> Self {
        F32(0)
    }

    fn zero() -> (r: Self) {
        F32(0)
    }
}

impl Sample for C32 {
    open spec fn zero_value() -> Self {
        C32 { re: F32(0), im: F32(0) }
    }

    fn zero() -> (r: Self) {
        C32 { re: F32(0), im: F32(0) }
    }
}

impl Sample for u32 {
    open spec fn zero_value() -> Self {
        0u32
    }

    fn zero() -> (r: Self) {
        0u32
    }
}

impl Sample for i32 {
    open spec fn zero_value() -> Self {
        0i32
    }

    fn zero() -> (r: Self) {
        0i32
    }
}

impl Summable for u32 {
    open spec fn sum_of(self, other: Self) -> Self {
        self.wrapping_add(other)
    }

    fn sum(self, other: Self) -> (r: Self) {
        self.wrapping_add(other)
    }
}

impl Summable for i32 {
    open spec fn sum_of(self, other: Self) -> Self {
        self.wrapping_add(other)
    }

    fn sum(self, other: Self) -> (r: Self) {
        self.wrapping_add(other)
    }
}

/// `s` cut or padded with zeros to `n` samples.
pub open spec fn resized<T: Sample>(s: Seq<T>, n: nat) -> Seq<T> {
    Seq::new(n, |i: int| if i < s.len() { s[i] } else { T::zero_value() })
}

/// `n` copies of `value`.
pub open spec fn constant<T>(n: nat, value: T) -> Seq<T> {
    Seq::new(n, |i: int| value)
}

/// `a` with the samples of `b` added one by one, as far as `b` reaches.
pub open spec fn mixed<T: Summable>(a: Seq<T>, b: Seq<T>) -> Seq<T> {
    Seq::new(a.len(), |i: int| if i < b.len() { a[i].sum_of(b[i]) } else { a[i] })
}

/// One sample per tick of the flow, all of one scalar kind.
#[derive(Debug)]
pub struct SampledBuffer<T> {
    pub samples: Vec<T>,
}

impl<T> View for SampledBuffer<T> {
    type V = Seq<T>;

    open spec fn view(&self) -> Seq<T> {
        self.samples@
    }
}

impl<T: Sample> SampledBuffer<T> {
    pub fn new() -> (r: Self)
        ensures
            r@ == Seq::<T>::empty(),
    {
        Self { samples: Vec::new() }
    }

    /// Cuts the buffer to `sz` samples, or pads it with zeros.
    pub fn resize(&mut self, sz: usize)
        ensures
            final(self)@ == resized(old(self)@, sz as nat),
    {
        let ghost before = self.samples@;
        if sz <= self.samples.len() {
            self.samples.truncate(sz);
        } else {
            while self.samples.len() < sz
                invariant
                    before.len() <= self.samples.len() <= sz,
                    self.samples@ == resized(before, self.samples.len() as nat),
                decreases sz - self.samples.len(),
            {
                self.samples.push(T::zero());
                assert(self.samples@ =~= resized(before, self.samples.len() as nat));
            }
        }
        assert(self.samples@ =~= resized(before, sz as nat));
    }

    pub fn len(&self) -> (r: usize)
        ensures
            r == self@.len(),
    {
        self.samples.len()
    }

    /// Brings the buffer to `sz` samples. A buffer that has that many is left
    /// as it is, so a run of blocks of one size never touches the allocation.
    pub fn update_size(&mut self, sz: usize)
        ensures
            final(self)@ == resized(old(self)@, sz as nat),
            old(self)@.len() == sz ==> *final(self) == *old(self),
    {
        if self.len() != sz {
            self.resize(sz)
        } else {
            assert(self@ =~= resized(self@, sz as nat));
        }
    }

    /// Sets every sample to zero.
    pub fn clear(&mut self)
        ensures
            final(self)@ == constant(old(self)@.len(), T::zero_value()),
    {
        self.fill(T::zero());
    }

    /// Sets every sample to `value`.
    pub fn fill(&mut self, value: T)
        ensures
            final(self)@ == constant(old(self)@.len(), value),
    {
        let n = self.samples.len();
        let mut i: usize = 0;
        while i < n
            invariant
                i <= n,
                self.samples.len() == n,
                forall|j: int| 0 <= j < i ==> self.samples@[j] == value,
            decreases n - i,
        {
            self.samples[i] = value;
            i += 1;
        }
        assert(self.samples@ =~= constant(n as nat, value));
    }

    /// Makes the buffer hold what `source` holds, in the storage it has.
    pub fn clone_from(&mut self, source: &Self)
        ensures
            final(self)@ == source@,
    {
        self.samples.clear();
        let n = source.samples.len();
        let mut i: usize = 0;
        while i < n
            invariant
                i <= n,
                n == source.samples.len(),
                self.samples@ == source.samples@.subrange(0, i as int),
            decreases n - i,
        {
            self.samples.push(source.samples[i]);
            i += 1;
            assert(self.samples@ =~= source.samples@.subrange(0, i as int));
        }
        assert(self.samples@ =~= source.samples@);
    }
}

impl<T: Summable> SampledBuffer<T> {
    /// Adds the samples of `other` to this buffer's, one by one.
    pub fn merge(&mut self, other: &Self)
        ensures
            final(self)@ == mixed(old(self)@, other@),
    {
        let ghost before = self.samples@;
        let n = if self.samples.len() < other.samples.len() {
            self.samples.len()
        } else {
            other.samples.len()
        };
        let mut i: usize = 0;
        while i < n
            invariant
                i <= n,
                n <= other.samples.len(),
                n <= before.len(),
                self.samples.len() == before.len(),
                forall|j: int| 0 <= j < i ==> self.samples@[j] == before[j].sum_of(other.samples@[j]),
                forall|j: int| i <= j < before.len() ==> self.samples@[j] == before[j],
            decreases n - i,
        {
            let x = self.samples[i];
            self.samples[i] = x.sum(other.samples[i]);
            i += 1;
        }
        assert(self.samples@ =~= mixed(before, other@));
    }
}

/// Something that happened at a tick.
#[derive(Clone, Copy, Debug)]
pub struct Event<T> {
    pub time: u64,
    pub value: T,
}

/// A sparse stream of events, in the order in which they were appended.
#[derive(Debug)]
pub struct EventBuffer<T> {
    pub events: Vec<Event<T>>,
}

impl<T> View for EventBuffer<T> {
    type V = Seq<Event<T>>;

    open spec fn view(&self) -> Seq<Event<T>> {
        self.events@
    }
}

impl<T: Copy> EventBuffer<T> {
    pub fn new() -> (r: Self)
        ensures
            r@ == Seq::<Event<T>>::empty(),
    {
        Self { events: Vec::new() }
    }

    /// Appends the events of `other`, in their order.
    pub fn merge(&mut self, other: &Self)
        ensures
            final(self)@ == old(self)@ + other@,
    {
        let ghost before = self.events@;
        let n = other.events.len();
        let mut i: usize = 0;
        while i < n
            invariant
                i <= n,
                n == other.events.len(),
                self.events@ == before + other.events@.subrange(0, i as int),
            decreases n - i,
        {
            let e = &other.events[i];
            self.events.push(Event { time: e.time, value: e.value });
            i += 1;
            assert(self.events@ =~= before + other.events@.subrange(0, i as int));
        }
        assert(other.events@.subrange(0, n as int) =~= other.events@);
    }

    /// Drops every event.
    pub fn clear(&mut self)
        ensures
            final(self)@ == Seq::<Event<T>>::empty(),
    {
        self.events.clear();
    }

    /// Makes the buffer hold what `source` holds, in the storage it has.
    pub fn clone_from(&mut self, source: &Self)
        ensures
            final(self)@ == source@,
    {
        self.events.clear();
        self.merge(source);
        assert(self.events@ =~= source.events@);
    }
}

/// What a sampled buffer of some kind holds.
pub enum Samples {
    F32(Seq<F32>),
    C32(Seq<C32>),
    U32(Seq<u32>),
    I32(Seq<i32>),
}

impl Samples {
    pub open spec fn empty(ty: PrimType) -> Samples {
        match ty {
            PrimType::F32 => Samples::F32(Seq::empty()),
            PrimType::C32 => Samples::C32(Seq::empty()),
            PrimType::U32 => Samples::U32(Seq::empty()),
            PrimType::I32 => Samples::I32(Seq::empty()),
        }
    }

    pub open spec fn ty(self) -> PrimType {
        match self {
            Samples::F32(_) => PrimType::F32,
            Samples::C32(_) => PrimType::C32,
            Samples::U32(_) => PrimType::U32,
            Samples::I32(_) => PrimType::I32,
        }
    }

    pub open spec fn len(self) -> nat {
        match self {
            Samples::F32(s) => s.len(),
            Samples::C32(s) => s.len(),
            Samples::U32(s) => s.len(),
            Samples::I32(s) => s.len(),
        }
    }

    pub open spec fn resized(self, n: nat) -> Samples {
        match self {
            Samples::F32(s) => Samples::F32(resized(s, n)),
            Samples::C32(s) => Samples::C32(resized(s, n)),
            Samples::U32(s) => Samples::U32(resized(s, n)),
            Samples::I32(s) => Samples::I32(resized(s, n)),
        }
    }

    /// As many samples, all zero.
    pub open spec fn cleared(self) -> Samples {
        match self {
            Samples::F32(s) => Samples::F32(constant(s.len(), F32::zero_value())),
            Samples::C32(s) => Samples::C32(constant(s.len(), C32::zero_value())),
            Samples::U32(s) => Samples::U32(constant(s.len(), 0u32)),
            Samples::I32(s) => Samples::I32(constant(s.len(), 0i32)),
        }
    }

    /// As many samples, all `value`, which is of this kind.
    pub open spec fn filled(self, value: Value) -> Samples {
        match (self, value) {
            (Samples::F32(s), Value::F32(v)) => Samples::F32(constant(s.len(), v)),
            (Samples::C32(s), Value::C32(v)) => Samples::C32(constant(s.len(), v)),
            (Samples::U32(s), Value::U32(v)) => Samples::U32(constant(s.len(), v)),
            (Samples::I32(s), Value::I32(v)) => Samples::I32(constant(s.len(), v)),
            _ => self,
        }
    }

    /// Whether sums of this kind are exact, that is, whether it is one of the
    /// integer kinds.
    pub open spec fn exact(self) -> bool {
        self is U32 || self is I32
    }

    /// The sample-wise sum with `other`, which is of the same integer kind.
    pub open spec fn mixed(self, other: Samples) -> Samples {
        match (self, other) {
            (Samples::U32(a), Samples::U32(b)) => Samples::U32(mixed(a, b)),
            (Samples::I32(a), Samples::I32(b)) => Samples::I32(mixed(a, b)),
            _ => self,
        }
    }
}

/// A sampled buffer of one of the four kinds.
#[derive(Debug)]
pub enum GenericSampledBuffer {
    F32(SampledBuffer<F32>),
    C32(SampledBuffer<C32>),
    U32(SampledBuffer<u32>),
    I32(SampledBuffer<i32>),
}

impl View for GenericSampledBuffer {
    type V = Samples;

    open spec fn view(&self) -> Samples {
        match self {
            GenericSampledBuffer::F32(b) => Samples::F32(b@),
            GenericSampledBuffer::C32(b) => Samples::C32(b@),
            GenericSampledBuffer::U32(b) => Samples::U32(b@),
            GenericSampledBuffer::I32(b) => Samples::I32(b@),
        }
    }
}

impl GenericSampledBuffer {
    pub fn new(ty: PrimType) -> (r: Self)
        ensures
            r@ == Samples::empty(ty),
    {
        match ty {
            PrimType::F32 => GenericSampledBuffer::F32(SampledBuffer::new()),
            PrimType::C32 => GenericSampledBuffer::C32(SampledBuffer::new()),
            PrimType::U32 => GenericSampledBuffer::U32(SampledBuffer::new()),
            PrimType::I32 => GenericSampledBuffer::I32(SampledBuffer::new()),
        }
    }

    pub fn resize(&mut self, sz: usize)
        ensures
            final(self)@ == old(self)@.resized(sz as nat),
    {
        match self {
            GenericSampledBuffer::F32(buf) => buf.resize(sz),
            GenericSampledBuffer::C32(buf) => buf.resize(sz),
            GenericSampledBuffer::U32(buf) => buf.resize(sz),
            GenericSampledBuffer::I32(buf) => buf.resize(sz),
        }
    }

    pub fn ty(&self) -> (r: PrimType)
        ensures
            r == self@.ty(),
    {
        match self {
            GenericSampledBuffer::F32(_) => PrimType::F32,
            GenericSampledBuffer::C32(_) => PrimType::C32,
            GenericSampledBuffer::U32(_) => PrimType::U32,
            GenericSampledBuffer::I32(_) => PrimType::I32,
        }
    }

    pub fn len(&self) -> (r: usize)
        ensures
            r == self@.len(),
    {
        match self {
            GenericSampledBuffer::F32(buf) => buf.len(),
            GenericSampledBuffer::C32(buf) => buf.len(),
            GenericSampledBuffer::U32(buf) => buf.len(),
            GenericSampledBuffer::I32(buf) => buf.len(),
        }
    }

    /// Brings the buffer to `sz` samples; one that has that many is left as
    /// it is.
    pub fn update_size(&mut self, sz: usize)
        ensures
            final(self)@ == old(self)@.resized(sz as nat),
            old(self)@.len() == sz ==> *final(self) == *old(self),
    {
        match self {
            GenericSampledBuffer::F32(buf) => buf.update_size(sz),
            GenericSampledBuffer::C32(buf) => buf.update_size(sz),
            GenericSampledBuffer::U32(buf) => buf.update_size(sz),
            GenericSampledBuffer::I32(buf) => buf.update_size(sz),
        }
    }

    /// Adds `other` to this buffer where the kind is an integer kind, and
    /// says so. A buffer of a floating-point kind is left as it is: its sum
    /// is the float unit's to take.
    pub fn merge(&mut self, other: &Self) -> (done: bool)
        requires
            old(self)@.ty() == other@.ty(),
        ensures
            done == old(self)@.exact(),
            final(self)@ == old(self)@.mixed(other@),
    {
        match self {
            GenericSampledBuffer::U32(x) => match other {
                GenericSampledBuffer::U32(y) => {
                    x.merge(y);
                    true
                },
                _ => false,
            },
            GenericSampledBuffer::I32(x) => match other {
                GenericSampledBuffer::I32(y) => {
                    x.merge(y);
                    true
                },
                _ => false,
            },
            _ => false,
        }
    }

    pub fn clear(&mut self)
        ensures
            final(self)@ == old(self)@.cleared(),
    {
        match self {
            GenericSampledBuffer::F32(buf) => buf.clear(),
            GenericSampledBuffer::C32(buf) => buf.clear(),
            GenericSampledBuffer::U32(buf) => buf.clear(),
            GenericSampledBuffer::I32(buf) => buf.clear(),
        }
    }

    /// Sets every sample to `value`, which is of the buffer's kind.
    pub fn fill(&mut self, value: Value)
        requires
            old(self)@.ty() == value.kind(),
        ensures
            final(self)@ == old(self)@.filled(value),
    {
        match self {
            GenericSampledBuffer::F32(x) => match value {
                Value::F32(y) => x.fill(y),
                _ => {},
            },
            GenericSampledBuffer::C32(x) => match value {
                Value::C32(y) => x.fill(y),
                _ => {},
            },
            GenericSampledBuffer::U32(x) => match value {
                Value::U32(y) => x.fill(y),
                _ => {},
            },
            GenericSampledBuffer::I32(x) => match value {
                Value::I32(y) => x.fill(y),
                _ => {},
            },
        }
    }

    /// A buffer of its own that holds what this one holds.
    pub fn duplicate(&self) -> (r: Self)
        ensures
            r@ == self@,
    {
        let mut r = GenericSampledBuffer::new(self.ty());
        r.clone_from(self);
        r
    }

    /// Makes the buffer hold what `source` holds. Where the kinds agree the
    /// storage is kept.
    pub fn clone_from(&mut self, source: &Self)
        ensures
            final(self)@ == source@,
    {
        if self.ty() != source.ty() {
            *self = GenericSampledBuffer::new(source.ty());
        }
        match self {
            GenericSampledBuffer::F32(x) => match source {
                GenericSampledBuffer::F32(y) => x.clone_from(y),
                _ => {},
            },
            GenericSampledBuffer::C32(x) => match source {
                GenericSampledBuffer::C32(y) => x.clone_from(y),
                _ => {},
            },
            GenericSampledBuffer::U32(x) => match source {
                GenericSampledBuffer::U32(y) => x.clone_from(y),
                _ => {},
            },
            GenericSampledBuffer::I32(x) => match source {
                GenericSampledBuffer::I32(y) => x.clone_from(y),
                _ => {},
            },
        }
    }
}

/// What an event buffer of some kind holds.
pub enum Events {
    F32(Seq<Event<F32>>),
    C32(Seq<Event<C32>>),
    U32(Seq<Event<u32>>),
    I32(Seq<Event<i32>>),
}

impl Events {
    pub open spec fn empty(ty: PrimType) -> Events {
        match ty {
            PrimType::F32 => Events::F32(Seq::empty()),
            PrimType::C32 => Events::C32(Seq::empty()),
            PrimType::U32 => Events::U32(Seq::empty()),
            PrimType::I32 => Events::I32(Seq::empty()),
        }
    }

    pub open spec fn ty(self) -> PrimType {
        match self {
            Events::F32(_) => PrimType::F32,
            Events::C32(_) => PrimType::C32,
            Events::U32(_) => PrimType::U32,
            Events::I32(_) => PrimType::I32,
        }
    }

    /// The events of `self`, then those of `other`, which is of the same
    /// kind.
    pub open spec fn mixed(self, other: Events) -> Events {
        match (self, other) {
            (Events::F32(a), Events::F32(b)) => Events::F32(a + b),
            (Events::C32(a), Events::C32(b)) => Events::C32(a + b),
            (Events::U32(a), Events::U32(b)) => Events::U32(a + b),
            (Events::I32(a), Events::I32(b)) => Events::I32(a + b),
            _ => self,
        }
    }
}

/// An event buffer of one of the four kinds.
#[derive(Debug)]
pub enum GenericEventBuffer {
    F32(EventBuffer<F32>),
    C32(EventBuffer<C32>),
    U32(EventBuffer<u32>),
    I32(EventBuffer<i32>),
}

impl View for GenericEventBuffer {
    type V = Events;

    open spec fn view(&self) -> Events {
        match self {
            GenericEventBuffer::F32(b) => Events::F32(b@),
            GenericEventBuffer::C32(b) => Events::C32(b@),
            GenericEventBuffer::U32(b) => Events::U32(b@),
            GenericEventBuffer::I32(b) => Events::I32(b@),
        }
    }
}

impl GenericEventBuffer {
    pub fn new(ty: PrimType) -> (r: Self)
        ensures
            r@ == Events::empty(ty),
    {
        match ty {
            PrimType::F32 => GenericEventBuffer::F32(EventBuffer::new()),
            PrimType::C32 => GenericEventBuffer::C32(EventBuffer::new()),
            PrimType::U32 => GenericEventBuffer::U32(EventBuffer::new()),
            PrimType::I32 => GenericEventBuffer::I32(EventBuffer::new()),
        }
    }

    pub fn ty(&self) -> (r: PrimType)
        ensures
            r == self@.ty(),
    {
        match self {
            GenericEventBuffer::F32(_) => PrimType::F32,
            GenericEventBuffer::C32(_) => PrimType::C32,
            GenericEventBuffer::U32(_) => PrimType::U32,
            GenericEventBuffer::I32(_) => PrimType::I32,
        }
    }

    /// Appends the events of `other`, which is of the same kind.
    pub fn merge(&mut self, other: &Self)
        requires
            old(self)@.ty() == other@.ty(),
        ensures
            final(self)@ == old(self)@.mixed(other@),
    {
        match self {
            GenericEventBuffer::F32(x) => match other {
                GenericEventBuffer::F32(y) => x.merge(y),
                _ => {},
            },
            GenericEventBuffer::C32(x) => match other {
                GenericEventBuffer::C32(y) => x.merge(y),
                _ => {},
            },
            GenericEventBuffer::U32(x) => match other {
                GenericEventBuffer::U32(y) => x.merge(y),
                _ => {},
            },
            GenericEventBuffer::I32(x) => match other {
                GenericEventBuffer::I32(y) => x.merge(y),
                _ => {},
            },
        }
    }

    pub fn clear(&mut self)
        ensures
            final(self)@ == Events::empty(old(self)@.ty()),
    {
        match self {
            GenericEventBuffer::F32(buf) => buf.clear(),
            GenericEventBuffer::C32(buf) => buf.clear(),
            GenericEventBuffer::U32(buf) => buf.clear(),
            GenericEventBuffer::I32(buf) => buf.clear(),
        }
    }

    /// Makes the buffer hold what `source` holds. Where the kinds agree the
    /// storage is kept.
    pub fn clone_from(&mut self, source: &Self)
        ensures
            final(self)@ == source@,
    {
        if self.ty() != source.ty() {
            *self = GenericEventBuffer::new(source.ty());
        }
        match self {
            GenericEventBuffer::F32(x) => match source {
                GenericEventBuffer::F32(y) => x.clone_from(y),
                _ => {},
            },
            GenericEventBuffer::C32(x) => match source {
                GenericEventBuffer::C32(y) => x.clone_from(y),
                _ => {},
            },
            GenericEventBuffer::U32(x) => match source {
                GenericEventBuffer::U32(y) => x.clone_from(y),
                _ => {},
            },
            GenericEventBuffer::I32(x) => match source {
                GenericEventBuffer::I32(y) => x.clone_from(y),
                _ => {},
            },
        }
    }
}

/// What a buffer holds.
pub enum Contents {
    Sampled(Samples),
    Event(Events),
}

impl Contents {
    /// What a buffer made for a connection of type `ty` holds at first.
    pub open spec fn fresh(ty: Type) -> Contents {
        match ty {
            Type::Sampled { ty, .. } => Contents::Sampled(Samples::empty(ty)),
            Type::Event(ty) => Contents::Event(Events::empty(ty)),
        }
    }

    /// The kind of scalar held.
    pub open spec fn ty(self) -> PrimType {
        match self {
            Contents::Sampled(s) => s.ty(),
            Contents::Event(e) => e.ty(),
        }
    }

    /// Whether a connection of type `ty` can carry this: the shape and the
    /// scalar kind agree. The Nyquist frequency is no part of a buffer.
    pub open spec fn has_type(self, ty: Type) -> bool {
        match (self, ty) {
            (Contents::Sampled(s), Type::Sampled { ty, .. }) => s.ty() == ty,
            (Contents::Event(e), Type::Event(ty)) => e.ty() == ty,
            _ => false,
        }
    }

    /// Whether both are of one shape and one scalar kind.
    pub open spec fn same_kind(self, other: Contents) -> bool {
        match (self, other) {
            (Contents::Sampled(a), Contents::Sampled(b)) => a.ty() == b.ty(),
            (Contents::Event(a), Contents::Event(b)) => a.ty() == b.ty(),
            _ => false,
        }
    }

    /// The scalar kind of sampled contents.
    pub open spec fn sampled_ty(self) -> Option<PrimType> {
        match self {
            Contents::Sampled(s) => Some(s.ty()),
            Contents::Event(_) => None,
        }
    }

    /// Sampled contents with every sample set to `value`, which is of their
    /// kind.
    pub open spec fn filled(self, value: Value) -> Contents {
        match self {
            Contents::Sampled(s) => Contents::Sampled(s.filled(value)),
            Contents::Event(_) => self,
        }
    }

    /// Whether mixing into this takes rounding arithmetic: it is sampled and
    /// of a floating-point kind.
    pub open spec fn rounds(self) -> bool {
        match self {
            Contents::Sampled(s) => !s.exact(),
            Contents::Event(_) => false,
        }
    }

    /// Sampled contents cut or padded to `n` samples; events as they are.
    pub open spec fn resized(self, n: nat) -> Contents {
        match self {
            Contents::Sampled(s) => Contents::Sampled(s.resized(n)),
            Contents::Event(_) => self,
        }
    }

    /// Sampled contents set to zero; no events.
    pub open spec fn cleared(self) -> Contents {
        match self {
            Contents::Sampled(s) => Contents::Sampled(s.cleared()),
            Contents::Event(e) => Contents::Event(Events::empty(e.ty())),
        }
    }

    /// The mix of `self` and `other`, which is of the same kind: the sum of
    /// integer samples, the events of one after those of the other, and
    /// `self` where the sum would round.
    pub open spec fn mixed(self, other: Contents) -> Contents {
        match (self, other) {
            (Contents::Sampled(a), Contents::Sampled(b)) => Contents::Sampled(a.mixed(b)),
            (Contents::Event(a), Contents::Event(b)) => Contents::Event(a.mixed(b)),
            _ => self,
        }
    }
}

/// The contents of the buffers of a map, slot by slot.
pub open spec fn contents(m: Map<u32, Buffer>) -> Map<u32, Contents> {
    m.map_values(|b: Buffer| b@)
}

/// Bringing contents to a length that they have changes nothing, and
/// bringing them to one length twice is bringing them to it once.
pub proof fn lemma_resize_idempotent(c: Contents, n: nat)
    ensures
        c.resized(n).resized(n) == c.resized(n),
        c matches Contents::Sampled(s) ==> c.resized(n) matches Contents::Sampled(t) && t.len() == n,
        c matches Contents::Sampled(s) && s.len() == n ==> c.resized(n) == c,
{
    match c {
        Contents::Sampled(Samples::F32(s)) => {
            assert(resized(resized(s, n), n) =~= resized(s, n));
            if s.len() == n {
                assert(resized(s, n) =~= s);
            }
        },
        Contents::Sampled(Samples::C32(s)) => {
            assert(resized(resized(s, n), n) =~= resized(s, n));
            if s.len() == n {
                assert(resized(s, n) =~= s);
            }
        },
        Contents::Sampled(Samples::U32(s)) => {
            assert(resized(resized(s, n), n) =~= resized(s, n));
            if s.len() == n {
                assert(resized(s, n) =~= s);
            }
        },
        Contents::Sampled(Samples::I32(s)) => {
            assert(resized(resized(s, n), n) =~= resized(s, n));
            if s.len() == n {
                assert(resized(s, n) =~= s);
            }
        },
        Contents::Event(_) => {},
    }
}

/// A buffer: sampled or of events, of one of the four scalar kinds.
#[derive(Debug)]
pub enum Buffer {
    Sampled(GenericSampledBuffer),
    Event(GenericEventBuffer),
}

impl View for Buffer {
    type V = Contents;

    open spec fn view(&self) -> Contents {
        match self {
            Buffer::Sampled(b) => Contents::Sampled(b@),
            Buffer::Event(b) => Contents::Event(b@),
        }
    }
}

impl Buffer {
    /// An empty buffer for a connection of type `ty`.
    pub fn new(ty: Type) -> (r: Self)
        ensures
            r@ == Contents::fresh(ty),
    {
        match ty {
            Type::Sampled { ty, .. } => Buffer::Sampled(GenericSampledBuffer::new(ty)),
            Type::Event(ty) => Buffer::Event(GenericEventBuffer::new(ty)),
        }
    }

    pub fn test_type(&self, ty: Type) -> (r: bool)
        ensures
            r == self@.has_type(ty),
    {
        match self {
            Buffer::Sampled(buf) => match ty {
                Type::Sampled { ty, .. } => buf.ty() == ty,
                _ => false,
            },
            Buffer::Event(buf) => match ty {
                Type::Event(ty) => buf.ty() == ty,
                _ => false,
            },
        }
    }

    pub fn same_kind(&self, other: &Buffer) -> (r: bool)
        ensures
            r == self@.same_kind(other@),
    {
        match self {
            Buffer::Sampled(a) => match other {
                Buffer::Sampled(b) => a.ty() == b.ty(),
                _ => false,
            },
            Buffer::Event(a) => match other {
                Buffer::Event(b) => a.ty() == b.ty(),
                _ => false,
            },
        }
    }

    /// The scalar kind of a sampled buffer.
    pub fn sampled_ty(&self) -> (r: Option<PrimType>)
        ensures
            r == self@.sampled_ty(),
    {
        match self {
            Buffer::Sampled(buf) => Some(buf.ty()),
            Buffer::Event(_) => None,
        }
    }

    /// Sets every sample of a sampled buffer of the kind of `value` to
    /// `value`.
    pub fn fill(&mut self, value: Value)
        requires
            old(self)@.sampled_ty() == Some(value.kind()),
        ensures
            final(self)@ == old(self)@.filled(value),
    {
        match self {
            Buffer::Sampled(buf) => buf.fill(value),
            Buffer::Event(_) => {},
        }
    }

    /// Brings a sampled buffer to `sz` samples; one that has that many, and
    /// any event buffer, is left as it is.
    pub fn update_size(&mut self, sz: usize)
        ensures
            final(self)@ == old(self)@.resized(sz as nat),
            old(self)@ is Event ==> *final(self) == *old(self),
            old(self)@ matches Contents::Sampled(s) && s.len() == sz ==> *final(self) == *old(self),
    {
        match self {
            Buffer::Sampled(buf) => buf.update_size(sz),
            Buffer::Event(_) => {},
        }
    }

    /// Mixes `other`, which is of the same kind, into this buffer, and says
    /// whether it did: integer samples are summed and events appended. A
    /// sampled buffer of a floating-point kind is left as it is and `false`
    /// returned: that sum is the float unit's to take.
    pub fn merge(&mut self, other: &Self) -> (done: bool)
        requires
            old(self)@.same_kind(other@),
        ensures
            done == !old(self)@.rounds(),
            final(self)@ == old(self)@.mixed(other@),
    {
        match self {
            Buffer::Sampled(x) => match other {
                Buffer::Sampled(y) => x.merge(y),
                _ => false,
            },
            Buffer::Event(x) => match other {
                Buffer::Event(y) => {
                    x.merge(y);
                    true
                },
                _ => false,
            },
        }
    }

    pub fn clear(&mut self)
        ensures
            final(self)@ == old(self)@.cleared(),
    {
        match self {
            Buffer::Sampled(x) => x.clear(),
            Buffer::Event(x) => x.clear(),
        }
    }

    /// Makes the buffer hold what `source` holds. Where the kinds agree the
    /// storage is kept.
    pub fn clone_from(&mut self, source: &Self)
        ensures
            final(self)@ == source@,
    {
        match source {
            Buffer::Sampled(y) => {
                match self {
                    Buffer::Sampled(x) => {
                        x.clone_from(y);
                        return ;
                    },
                    _ => {},
                }
                *self = Buffer::Sampled(y.duplicate());
            },
            Buffer::Event(y) => {
                match self {
                    Buffer::Event(x) => {
                        x.clone_from(y);
                        return ;
                    },
                    _ => {},
                }
                let mut e = GenericEventBuffer::new(y.ty());
                e.clone_from(y);
                *self = Buffer::Event(e);
            },
        }
    }
}

} // verus!
