use sigflow::buffer::{
    Buffer, Event, EventBuffer, GenericEventBuffer, GenericSampledBuffer, SampledBuffer,
};
use sigflow::value::{PrimType, Type, Value, C32, F32};

fn f(x: f32) -> F32 {
    F32(x.to_bits())
}

fn floats(b: &Buffer) -> Vec<f32> {
    match b {
        Buffer::Sampled(GenericSampledBuffer::F32(s)) => {
            s.samples.iter().map(|x| f32::from_bits(x.0)).collect()
        }
        _ => panic!("no f32 signal"),
    }
}

#[test]
fn new_sampled_buffer_is_empty() {
    let b: SampledBuffer<u32> = SampledBuffer::new();
    assert_eq!(b.len(), 0);
    assert!(b.samples.is_empty());
}

#[test]
fn resize_pads_with_zero_and_cuts() {
    let mut b: SampledBuffer<i32> = SampledBuffer::new();
    b.resize(3);
    assert_eq!(b.samples, vec![0, 0, 0]);
    b.fill(7);
    b.resize(5);
    assert_eq!(b.samples, vec![7, 7, 7, 0, 0]);
    b.resize(2);
    assert_eq!(b.samples, vec![7, 7]);
    b.resize(0);
    assert_eq!(b.len(), 0);
}

#[test]
fn update_size_of_the_same_size_keeps_the_storage() {
    let mut b: SampledBuffer<u32> = SampledBuffer::new();
    b.update_size(64);
    b.fill(3);
    let at = b.samples.as_ptr();
    let room = b.samples.capacity();
    for _ in 0..10 {
        b.update_size(64);
    }
    assert_eq!(b.samples.as_ptr(), at);
    assert_eq!(b.samples.capacity(), room);
    assert_eq!(b.samples, vec![3; 64]);
}

#[test]
fn merge_adds_as_far_as_the_shorter_reaches() {
    let mut a: SampledBuffer<u32> = SampledBuffer::new();
    a.samples = vec![1, 2, 3, 4];
    let mut b: SampledBuffer<u32> = SampledBuffer::new();
    b.samples = vec![10, 20];
    a.merge(&b);
    assert_eq!(a.samples, vec![11, 22, 3, 4]);
    b.merge(&a);
    assert_eq!(b.samples, vec![21, 42]);
}

#[test]
fn integer_merge_wraps() {
    let mut a: SampledBuffer<u32> = SampledBuffer::new();
    a.samples = vec![u32::MAX, 1];
    let mut b: SampledBuffer<u32> = SampledBuffer::new();
    b.samples = vec![2, 2];
    a.merge(&b);
    assert_eq!(a.samples, vec![1, 3]);
    let mut c: SampledBuffer<i32> = SampledBuffer::new();
    c.samples = vec![i32::MAX, -5];
    let mut d: SampledBuffer<i32> = SampledBuffer::new();
    d.samples = vec![1, 3];
    c.merge(&d);
    assert_eq!(c.samples, vec![i32::MIN, -2]);
}

#[test]
fn clear_and_fill_keep_the_length() {
    let mut a: SampledBuffer<F32> = SampledBuffer::new();
    a.resize(4);
    a.fill(f(2.5));
    assert!(a.samples.iter().all(|x| x.0 == 2.5f32.to_bits()));
    a.clear();
    assert_eq!(a.len(), 4);
    assert!(a.samples.iter().all(|x| x.0 == 0));
}

#[test]
fn sampled_clone_from_copies() {
    let mut a: SampledBuffer<u32> = SampledBuffer::new();
    a.samples = vec![1, 2, 3];
    let mut b: SampledBuffer<u32> = SampledBuffer::new();
    b.samples = vec![9; 10];
    b.clone_from(&a);
    assert_eq!(b.samples, vec![1, 2, 3]);
    a.samples[0] = 100;
    assert_eq!(b.samples, vec![1, 2, 3]);
}

#[test]
fn event_merge_appends() {
    let mut a: EventBuffer<u32> = EventBuffer::new();
    a.events.push(Event { time: 1, value: 10 });
    let mut b: EventBuffer<u32> = EventBuffer::new();
    b.events.push(Event { time: 0, value: 20 });
    b.events.push(Event { time: 5, value: 30 });
    a.merge(&b);
    let got: Vec<(u64, u32)> = a.events.iter().map(|e| (e.time, e.value)).collect();
    assert_eq!(got, vec![(1, 10), (0, 20), (5, 30)]);
    a.clear();
    assert!(a.events.is_empty());
    assert_eq!(b.events.len(), 2);
}

#[test]
fn buffer_new_follows_the_type() {
    let s = Buffer::new(Type::Sampled { ty: PrimType::C32, f_nyq: 10 });
    assert!(matches!(s, Buffer::Sampled(GenericSampledBuffer::C32(_))));
    let e = Buffer::new(Type::Event(PrimType::I32));
    assert!(matches!(e, Buffer::Event(GenericEventBuffer::I32(_))));
}

#[test]
fn test_type_ignores_nyquist() {
    let s = Buffer::new(Type::Sampled { ty: PrimType::F32, f_nyq: 10 });
    assert!(s.test_type(Type::Sampled { ty: PrimType::F32, f_nyq: 10 }));
    assert!(s.test_type(Type::Sampled { ty: PrimType::F32, f_nyq: 99 }));
    assert!(!s.test_type(Type::Sampled { ty: PrimType::U32, f_nyq: 10 }));
    assert!(!s.test_type(Type::Event(PrimType::F32)));
    let e = Buffer::new(Type::Event(PrimType::F32));
    assert!(e.test_type(Type::Event(PrimType::F32)));
    assert!(!e.test_type(Type::Sampled { ty: PrimType::F32, f_nyq: 10 }));
}

#[test]
fn buffer_kinds() {
    let a = Buffer::new(Type::Sampled { ty: PrimType::F32, f_nyq: 1 });
    let b = Buffer::new(Type::Sampled { ty: PrimType::F32, f_nyq: 2 });
    let c = Buffer::new(Type::Sampled { ty: PrimType::U32, f_nyq: 1 });
    let d = Buffer::new(Type::Event(PrimType::F32));
    assert!(a.same_kind(&b));
    assert!(!a.same_kind(&c));
    assert!(!a.same_kind(&d));
    assert_eq!(a.sampled_ty(), Some(PrimType::F32));
    assert_eq!(d.sampled_ty(), None);
}

#[test]
fn buffer_update_size_leaves_events() {
    let mut e = Buffer::new(Type::Event(PrimType::U32));
    e.update_size(16);
    assert!(matches!(&e, Buffer::Event(GenericEventBuffer::U32(b)) if b.events.is_empty()));
    let mut s = Buffer::new(Type::Sampled { ty: PrimType::U32, f_nyq: 1 });
    s.update_size(16);
    assert!(matches!(&s, Buffer::Sampled(GenericSampledBuffer::U32(b)) if b.samples == vec![0; 16]));
}

#[test]
fn buffer_merge_of_integers_is_done_here() {
    let mut a = Buffer::new(Type::Sampled { ty: PrimType::I32, f_nyq: 1 });
    let mut b = Buffer::new(Type::Sampled { ty: PrimType::I32, f_nyq: 1 });
    a.update_size(3);
    b.update_size(3);
    a.fill(Value::I32(-2));
    b.fill(Value::I32(5));
    assert!(a.merge(&b));
    assert!(matches!(&a, Buffer::Sampled(GenericSampledBuffer::I32(x)) if x.samples == vec![3, 3, 3]));
}

#[test]
fn buffer_merge_of_floats_is_left_alone() {
    let mut a = Buffer::new(Type::Sampled { ty: PrimType::F32, f_nyq: 1 });
    let mut b = Buffer::new(Type::Sampled { ty: PrimType::F32, f_nyq: 1 });
    a.update_size(2);
    b.update_size(2);
    a.fill(Value::F32(f(1.0)));
    b.fill(Value::F32(f(2.0)));
    assert!(!a.merge(&b));
    assert_eq!(floats(&a), vec![1.0, 1.0]);
    let mut c = Buffer::new(Type::Sampled { ty: PrimType::C32, f_nyq: 1 });
    let d = Buffer::new(Type::Sampled { ty: PrimType::C32, f_nyq: 1 });
    c.update_size(1);
    c.fill(Value::C32(C32 { re: f(1.0), im: f(-1.0) }));
    assert!(!c.merge(&d));
    assert!(matches!(&c, Buffer::Sampled(GenericSampledBuffer::C32(x))
        if x.samples[0].re == f(1.0) && x.samples[0].im == f(-1.0)));
}

#[test]
fn buffer_merge_of_events_appends() {
    let mut a = Buffer::Event(GenericEventBuffer::F32(EventBuffer::new()));
    let mut src: EventBuffer<F32> = EventBuffer::new();
    src.events.push(Event { time: 3, value: f(1.0) });
    let b = Buffer::Event(GenericEventBuffer::F32(src));
    assert!(a.merge(&b));
    assert!(a.merge(&b));
    assert!(matches!(&a, Buffer::Event(GenericEventBuffer::F32(x)) if x.events.len() == 2));
}

#[test]
fn buffer_clear() {
    let mut a = Buffer::new(Type::Sampled { ty: PrimType::F32, f_nyq: 1 });
    a.update_size(3);
    a.fill(Value::F32(f(4.0)));
    a.clear();
    assert_eq!(floats(&a), vec![0.0, 0.0, 0.0]);
}

#[test]
fn buffer_clone_from_takes_kind_and_length() {
    let mut a = Buffer::new(Type::Event(PrimType::U32));
    let mut b = Buffer::new(Type::Sampled { ty: PrimType::F32, f_nyq: 1 });
    b.update_size(4);
    b.fill(Value::F32(f(7.0)));
    a.clone_from(&b);
    assert_eq!(floats(&a), vec![7.0; 4]);
    let mut c = Buffer::new(Type::Sampled { ty: PrimType::F32, f_nyq: 1 });
    c.update_size(9);
    c.clone_from(&b);
    assert_eq!(floats(&c), vec![7.0; 4]);
    let mut d = Buffer::new(Type::Sampled { ty: PrimType::U32, f_nyq: 1 });
    d.clone_from(&Buffer::new(Type::Event(PrimType::C32)));
    assert!(matches!(d, Buffer::Event(GenericEventBuffer::C32(_))));
}

#[test]
fn generic_sampled_buffer_basics() {
    let mut g = GenericSampledBuffer::new(PrimType::U32);
    assert_eq!(g.ty(), PrimType::U32);
    assert_eq!(g.len(), 0);
    g.resize(2);
    g.fill(Value::U32(9));
    let h = g.duplicate();
    g.clear();
    assert!(matches!(&g, GenericSampledBuffer::U32(x) if x.samples == vec![0, 0]));
    assert!(matches!(&h, GenericSampledBuffer::U32(x) if x.samples == vec![9, 9]));
    g.update_size(3);
    assert_eq!(g.len(), 3);
    assert!(g.merge(&h));
    assert!(matches!(&g, GenericSampledBuffer::U32(x) if x.samples == vec![9, 9, 0]));
}

#[test]
fn generic_event_buffer_basics() {
    let mut g = GenericEventBuffer::new(PrimType::I32);
    assert_eq!(g.ty(), PrimType::I32);
    let mut src: EventBuffer<i32> = EventBuffer::new();
    src.events.push(Event { time: 1, value: -1 });
    let h = GenericEventBuffer::I32(src);
    g.merge(&h);
    assert!(matches!(&g, GenericEventBuffer::I32(x) if x.events.len() == 1 && x.events[0].value == -1));
    g.clear();
    assert!(matches!(&g, GenericEventBuffer::I32(x) if x.events.is_empty()));
    g.clone_from(&h);
    assert!(matches!(&g, GenericEventBuffer::I32(x) if x.events[0].time == 1));
}
