use sigflow::value::{InputNo, OutputNo, PrimType, Type, Value, C32, F32};

fn f(x: f32) -> F32 {
    F32(x.to_bits())
}

#[test]
fn slot_numbers_convert_from_u32() {
    assert_eq!(InputNo::from(3), InputNo(3));
    assert_eq!(OutputNo::from(0), OutputNo(0));
    assert_eq!(InputNo(7).0, 7);
}

#[test]
fn sampled_types_differ_by_nyquist() {
    let a = Type::Sampled { ty: PrimType::F32, f_nyq: 22050 };
    let b = Type::Sampled { ty: PrimType::F32, f_nyq: 24000 };
    assert_ne!(a, b);
    assert_eq!(a, Type::Sampled { ty: PrimType::F32, f_nyq: 22050 });
    assert_ne!(a, Type::Event(PrimType::F32));
}

#[test]
fn value_kinds() {
    assert_eq!(Value::F32(f(1.0)).Type(), PrimType::F32);
    assert_eq!(Value::C32(C32 { re: f(1.0), im: f(0.0) }).Type(), PrimType::C32);
    assert_eq!(Value::U32(1).Type(), PrimType::U32);
    assert_eq!(Value::I32(-1).Type(), PrimType::I32);
}

#[test]
fn float_equality_is_total() {
    assert!(f(f32::NAN) == f(f32::NAN));
    assert!(f(f32::NAN) == F32(0xffc0_0001));
    assert!(f(f32::NAN) != f(5.0));
    assert!(f(5.0) != f(f32::NAN));
    assert!(f(0.0) == f(-0.0));
    assert!(f(1.5) == f(1.5));
    assert!(f(1.5) != f(-1.5));
    assert!(f(f32::INFINITY) == f(f32::INFINITY));
    assert!(f(f32::INFINITY) != f(f32::NAN));
}

#[test]
fn value_equality_follows_the_kind() {
    assert!(Value::F32(f(0.0)) == Value::F32(f(-0.0)));
    assert!(Value::U32(0) != Value::I32(0));
    assert!(Value::C32(C32 { re: f(0.0), im: f(f32::NAN) }) == Value::C32(C32 { re: f(-0.0), im: f(f32::NAN) }));
    assert!(Value::C32(C32 { re: f(1.0), im: f(2.0) }) != Value::C32(C32 { re: f(2.0), im: f(1.0) }));
}

#[test]
fn bits_round_trip() {
    assert_eq!(F32::from_bits(0x3f80_0000).to_bits(), 1.0f32.to_bits());
}
