use sigflow::buffer::{Buffer, GenericSampledBuffer};
use sigflow::element::Element;
use sigflow::prim_element::constant::Constant;
use sigflow::prim_element::pure::{AddF32, MultiplyF32};
use sigflow::prim_element::sine_osc::SineOscF32;
use sigflow::prim_element::{mk_prim_element_processor, Outcome, PrimElement, PrimProcessor};
use sigflow::processor::{Processor, ProcessorStore};
use sigflow::graph::EdgeIx;
use sigflow::flow_store::FlowId;
use sigflow::slot_map::SlotMap;
use sigflow::store::Store;
use sigflow::value::{PrimType, Type, Value, F32};

fn signal() -> Type {
    Type::Sampled { ty: PrimType::F32, f_nyq: 22050 }
}

fn f(x: f32) -> F32 {
    F32(x.to_bits())
}

fn filled(x: f32, n: usize) -> Buffer {
    let mut b = Buffer::new(signal());
    b.update_size(n);
    b.fill(Value::F32(f(x)));
    b
}

fn floats(b: &Buffer) -> Vec<f32> {
    match b {
        Buffer::Sampled(GenericSampledBuffer::F32(s)) => {
            s.samples.iter().map(|x| f32::from_bits(x.0)).collect()
        }
        _ => panic!("no f32 signal"),
    }
}

#[test]
fn multiply_with_one_input_clears_its_output() {
    for sz in [0usize, 1, 5, 64] {
        for wired in [0u32, 1] {
            let mut output = SlotMap::new();
            output.insert(0, filled(9.0, 3));
            let mut input = SlotMap::new();
            input.insert(wired, filled(2.0, sz));
            let mut m = MultiplyF32::new();
            assert_eq!(m.compute_outplace(&mut output, &input, sz), Outcome::Done);
            let got = floats(output.get(0).unwrap());
            assert_eq!(got.len(), sz);
            assert!(got.iter().all(|x| x.to_bits() == 0));
        }
    }
}

#[test]
fn add_without_inputs_clears_its_output() {
    let mut output = SlotMap::new();
    output.insert(0, filled(9.0, 10));
    let input: SlotMap<Buffer> = SlotMap::new();
    let mut a = AddF32::new();
    assert_eq!(a.compute_outplace(&mut output, &input, 4), Outcome::Done);
    assert_eq!(floats(output.get(0).unwrap()), vec![0.0; 4]);
}

#[test]
fn multiply_with_both_inputs_sizes_its_output_for_the_float_unit() {
    let mut output = SlotMap::new();
    output.insert(0, filled(9.0, 2));
    let mut input = SlotMap::new();
    input.insert(0, filled(2.0, 4));
    input.insert(1, filled(3.0, 4));
    let mut m = MultiplyF32::new();
    assert_eq!(m.compute_outplace(&mut output, &input, 4), Outcome::Pending);
    assert_eq!(floats(output.get(0).unwrap()), vec![9.0, 9.0, 0.0, 0.0]);
    let mut a = AddF32::new();
    assert_eq!(a.compute_outplace(&mut output, &input, 1), Outcome::Pending);
    assert_eq!(floats(output.get(0).unwrap()), vec![9.0]);
}

#[test]
fn multiply_without_its_output_does_nothing() {
    let mut output: SlotMap<Buffer> = SlotMap::new();
    output.insert(1, filled(9.0, 2));
    let mut input = SlotMap::new();
    input.insert(0, filled(2.0, 4));
    let mut m = MultiplyF32::new();
    assert_eq!(m.compute_outplace(&mut output, &input, 4), Outcome::Done);
    assert_eq!(floats(output.get(1).unwrap()), vec![9.0, 9.0]);
}

#[test]
fn multiply_faults_on_other_kinds() {
    let mut output = SlotMap::new();
    output.insert(0, Buffer::new(Type::Sampled { ty: PrimType::U32, f_nyq: 1 }));
    let mut input = SlotMap::new();
    input.insert(0, filled(2.0, 4));
    input.insert(1, filled(2.0, 4));
    let mut m = MultiplyF32::new();
    assert_eq!(m.compute_outplace(&mut output, &input, 4), Outcome::Fault);
    let mut output = SlotMap::new();
    output.insert(0, filled(9.0, 2));
    let mut input = SlotMap::new();
    input.insert(0, filled(2.0, 4));
    input.insert(1, Buffer::new(Type::Event(PrimType::F32)));
    assert_eq!(m.compute_outplace(&mut output, &input, 4), Outcome::Fault);
    assert_eq!(floats(output.get(0).unwrap()), vec![9.0, 9.0]);
}

#[test]
fn constant_fills_its_output() {
    let mut c = Constant::new(Value::F32(f(0.25)));
    let mut output = SlotMap::new();
    output.insert(0, filled(9.0, 2));
    let input: SlotMap<Buffer> = SlotMap::new();
    assert_eq!(c.compute_outplace(&mut output, &input, 6), Outcome::Done);
    assert_eq!(floats(output.get(0).unwrap()), vec![0.25; 6]);
    let mut wrong = SlotMap::new();
    wrong.insert(0, Buffer::new(Type::Sampled { ty: PrimType::I32, f_nyq: 1 }));
    assert_eq!(c.compute_outplace(&mut wrong, &input, 6), Outcome::Fault);
    let mut events = SlotMap::new();
    events.insert(0, Buffer::new(Type::Event(PrimType::F32)));
    assert_eq!(c.compute_outplace(&mut events, &input, 6), Outcome::Fault);
    let mut none: SlotMap<Buffer> = SlotMap::new();
    assert_eq!(c.compute_outplace(&mut none, &input, 6), Outcome::Done);
}

#[test]
fn sine_oscillator_decides() {
    let mut o = SineOscF32::new(22050);
    assert_eq!(o.sample_rate(), 44100);
    assert_eq!(o.current_phase().0, 0);
    let mut output = SlotMap::new();
    output.insert(0, filled(9.0, 2));
    let none: SlotMap<Buffer> = SlotMap::new();
    assert_eq!(o.compute_outplace(&mut output, &none, 3), Outcome::Done);
    assert_eq!(floats(output.get(0).unwrap()), vec![0.0; 3]);
    let mut input = SlotMap::new();
    input.insert(0, filled(440.0, 5));
    output.get_mut(0).unwrap().fill(Value::F32(f(1.0)));
    assert_eq!(o.compute_outplace(&mut output, &input, 5), Outcome::Pending);
    assert_eq!(floats(output.get(0).unwrap()), vec![1.0, 1.0, 1.0, 0.0, 0.0]);
    let mut wrong = SlotMap::new();
    wrong.insert(0, Buffer::new(Type::Sampled { ty: PrimType::U32, f_nyq: 1 }));
    assert_eq!(o.compute_outplace(&mut output, &wrong, 5), Outcome::Fault);
    o.set_phase(f(0.5));
    assert_eq!(o.current_phase().0, 0.5f32.to_bits());
    assert_eq!(o.sample_rate(), 44100);
}

#[test]
fn a_state_is_made_for_its_descriptor() {
    let osc = PrimElement::SineOscF32 { f_nyq: 100 };
    match mk_prim_element_processor(osc) {
        PrimProcessor::SineOscF32(o) => {
            assert_eq!(o.sample_rate(), 200);
            assert_eq!(o.current_phase().0, 0);
        }
        _ => panic!("no oscillator"),
    }
    let c = PrimElement::Constant { value: Value::U32(4), f_nyq: 100 };
    let mut p = mk_prim_element_processor(c);
    let mut output = SlotMap::new();
    output.insert(0, Buffer::new(Type::Sampled { ty: PrimType::U32, f_nyq: 1 }));
    let input: SlotMap<Buffer> = SlotMap::new();
    assert_eq!(p.compute_outplace(&mut output, &input, 2), Outcome::Done);
    assert!(matches!(output.get(0), Some(Buffer::Sampled(GenericSampledBuffer::U32(s))) if s.samples == vec![4, 4]));
}

#[test]
fn the_registry_counts_uses() {
    let mut r = ProcessorStore::new();
    let a = PrimElement::Constant { value: Value::F32(f(0.0)), f_nyq: 1 };
    let same = PrimElement::Constant { value: Value::F32(f(-0.0)), f_nyq: 1 };
    let b = PrimElement::SineOscF32 { f_nyq: 1 };
    assert!(!r.in_use(a));
    assert_eq!(r.use_count(a), 0);
    r.use_prim_element_processor(a);
    r.use_prim_element_processor(b);
    r.use_prim_element_processor(same);
    assert_eq!(r.use_count(a), 2);
    assert_eq!(r.use_count(same), 2);
    assert_eq!(r.use_count(b), 1);
    r.free_prim_element_processor(a);
    assert!(r.in_use(same));
    r.free_prim_element_processor(same);
    assert!(!r.in_use(a));
    assert!(r.in_use(b));
    assert_eq!(r.phase(b), Some(F32(0)));
    assert_eq!(r.phase(a), None);
    assert!(r.set_phase(b, f(0.75)));
    assert!(!r.set_phase(a, f(0.75)));
    assert_eq!(r.phase(b), Some(f(0.75)));
    assert_eq!(r.sample_rate(b), Some(2));
    r.free_prim_element_processor(b);
    assert_eq!(r.phase(b), None);
    r.use_prim_element_processor(b);
    assert_eq!(r.phase(b), Some(F32(0)));
}

#[test]
fn equal_oscillators_share_their_phase() {
    let mut store = Store::new();
    let flow = store.add_flow();
    let id = PrimElement::SineOscF32 { f_nyq: 8 };
    let a = store.add_element(flow, Element::Prim(id));
    let b = store.add_element(flow, Element::Prim(id));
    assert_eq!(store.processor_store().use_count(id), 2);
    assert!(store.set_phase(id, f(0.5)));
    store.remove_node(flow, a);
    assert_eq!(store.processor_store().use_count(id), 1);
    assert_eq!(store.phase(id), Some(f(0.5)));
    store.remove_node(flow, b);
    assert_eq!(store.processor_store().use_count(id), 0);
    assert_eq!(store.phase(id), None);
    store.add_element(flow, Element::Prim(id));
    assert_eq!(store.phase(id), Some(F32(0)));
}

#[test]
fn a_processor_keeps_one_buffer_per_edge() {
    let mut p = Processor::new();
    p.add_edge(EdgeIx(3), signal());
    p.add_edge(EdgeIx(0), Type::Event(PrimType::U32));
    assert!(p.buffer(EdgeIx(3)).unwrap().test_type(signal()));
    assert!(p.buffer(EdgeIx(0)).unwrap().test_type(Type::Event(PrimType::U32)));
    assert!(p.buffer(EdgeIx(1)).is_none());
    p.buffer_mut(EdgeIx(3)).unwrap().update_size(4);
    assert_eq!(floats(p.buffer(EdgeIx(3)).unwrap()), vec![0.0; 4]);
    let taken = p.take(EdgeIx(3)).unwrap();
    assert!(p.buffer(EdgeIx(3)).is_none());
    p.put(EdgeIx(3), taken);
    assert_eq!(floats(p.buffer(EdgeIx(3)).unwrap()), vec![0.0; 4]);
    assert!(p.remove_edge(EdgeIx(3)));
    assert!(!p.remove_edge(EdgeIx(3)));
    assert!(p.buffer_mut(EdgeIx(3)).is_none());
}

#[test]
fn a_processor_store_keeps_one_processor_per_flow() {
    let mut s = ProcessorStore::new();
    s.add(FlowId(2));
    s.add(FlowId(4));
    s.processor_mut(FlowId(2)).unwrap().add_edge(EdgeIx(1), signal());
    assert!(s.processor_mut(FlowId(3)).is_none());
    assert!(s.processor(FlowId(2)).buffer(EdgeIx(1)).is_some());
    assert!(s.buffer(FlowId(2), EdgeIx(1)).is_some());
    assert!(s.buffer(FlowId(4), EdgeIx(1)).is_none());
    assert!(s.buffer(FlowId(5), EdgeIx(1)).is_none());
    s.buffer_mut(FlowId(2), EdgeIx(1)).unwrap().update_size(2);
    let mut mine = filled(3.0, 1);
    assert!(s.swap(FlowId(2), EdgeIx(1), &mut mine));
    assert_eq!(floats(&mine), vec![0.0, 0.0]);
    assert_eq!(floats(s.buffer(FlowId(2), EdgeIx(1)).unwrap()), vec![3.0]);
    assert!(!s.swap(FlowId(4), EdgeIx(1), &mut mine));
    assert_eq!(floats(&mine), vec![0.0, 0.0]);
    let gone = s.remove(FlowId(2)).unwrap();
    assert!(gone.buffer(EdgeIx(1)).is_some());
    assert!(s.get(FlowId(2)).is_none());
    assert!(s.remove(FlowId(2)).is_none());
    assert!(s.get(FlowId(4)).is_some());
}

#[test]
fn given_buffers_are_checked_against_the_declared_types() {
    let mut types = SlotMap::new();
    types.insert(0, signal());
    types.insert(1, Type::Event(PrimType::U32));
    let mut buffers = SlotMap::new();
    assert!(Processor::check_buffer_types(&buffers, &types));
    buffers.insert(0, filled(1.0, 3));
    buffers.insert(7, Buffer::new(Type::Event(PrimType::I32)));
    assert!(Processor::check_buffer_types(&buffers, &types));
    buffers.insert(1, Buffer::new(Type::Event(PrimType::I32)));
    assert!(!Processor::check_buffer_types(&buffers, &types));
    buffers.insert(1, Buffer::new(Type::Event(PrimType::U32)));
    assert!(Processor::check_buffer_types(&buffers, &types));
}

#[test]
fn given_buffers_are_checked_for_the_block_size() {
    let mut buffers = SlotMap::new();
    assert!(Processor::check_buffer_sz(&buffers, 3));
    buffers.insert(0, filled(1.0, 3));
    buffers.insert(1, Buffer::new(Type::Event(PrimType::I32)));
    assert!(Processor::check_buffer_sz(&buffers, 3));
    assert!(!Processor::check_buffer_sz(&buffers, 4));
    buffers.insert(2, filled(1.0, 4));
    assert!(!Processor::check_buffer_sz(&buffers, 3));
}

#[test]
fn the_primitives_of_a_flow_include_those_nested_in_it() {
    let mut store = Store::new();
    let inner = store.add_flow();
    let c1 = PrimElement::Constant { value: Value::U32(1), f_nyq: 5 };
    let osc = PrimElement::SineOscF32 { f_nyq: 5 };
    store.add_element(inner, Element::Prim(c1));
    store.add_input(inner, signal());
    store.add_element(inner, Element::Prim(osc));
    let outer = store.add_flow();
    let c2 = PrimElement::Constant { value: Value::U32(2), f_nyq: 5 };
    store.add_element(outer, Element::Prim(c2));
    store.add_element(outer, Element::Flow(inner));
    store.add_element(outer, Element::Flow(inner));
    store.add_output(outer, signal());
    let flows = store.flow_store();
    let found = flows.get(outer).unwrap().prim_elements(flows).unwrap();
    assert_eq!(found.len(), 5);
    assert_eq!(found.iter().filter(|p| **p == c1).count(), 2);
    assert_eq!(found.iter().filter(|p| **p == osc).count(), 2);
    assert_eq!(found.iter().filter(|p| **p == c2).count(), 1);
    let found = flows.get(inner).unwrap().prim_elements(flows).unwrap();
    assert_eq!(found.len(), 2);
    store.add_element(inner, Element::Flow(outer));
    let flows = store.flow_store();
    assert!(flows.get(outer).unwrap().prim_elements(flows).is_none());
    assert!(flows.get(inner).unwrap().prim_elements(flows).is_none());
}
