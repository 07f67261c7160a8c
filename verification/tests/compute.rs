use sigflow::buffer::{Buffer, GenericSampledBuffer};
use sigflow::element::Element;
use sigflow::engine::Halt;
use sigflow::flow_store::FlowId;
use sigflow::graph::{EdgeIx, NodeIx};
use sigflow::prim_element::{Outcome, PrimElement};
use sigflow::schedule::{Op, Place};
use sigflow::slot_map::SlotMap;
use sigflow::store::Store;
use sigflow::value::{InputNo, OutputNo, PrimType, Type, Value, F32};

const F_NYQ: u64 = 22050;

fn signal() -> Type {
    Type::Sampled { ty: PrimType::F32, f_nyq: F_NYQ }
}

fn counts() -> Type {
    Type::Sampled { ty: PrimType::U32, f_nyq: F_NYQ }
}

fn constant(x: f32) -> Element {
    Element::Prim(PrimElement::Constant { value: Value::F32(F32(x.to_bits())), f_nyq: F_NYQ })
}

fn count(x: u32) -> Element {
    Element::Prim(PrimElement::Constant { value: Value::U32(x), f_nyq: F_NYQ })
}

fn floats(b: &Buffer) -> Vec<f32> {
    match b {
        Buffer::Sampled(GenericSampledBuffer::F32(s)) => {
            s.samples.iter().map(|x| f32::from_bits(x.0)).collect()
        }
        _ => panic!("no f32 signal"),
    }
}

fn numbers(b: &Buffer) -> Vec<u32> {
    match b {
        Buffer::Sampled(GenericSampledBuffer::U32(s)) => s.samples.clone(),
        _ => panic!("no u32 signal"),
    }
}

fn set_floats(b: &mut Buffer, values: &[f32]) {
    match b {
        Buffer::Sampled(GenericSampledBuffer::F32(s)) => {
            for (y, x) in s.samples.iter_mut().zip(values) {
                *y = F32(x.to_bits());
            }
        }
        _ => panic!("no f32 signal"),
    }
}

fn read(store: &Store, input: &SlotMap<Buffer>, place: Place) -> Vec<f32> {
    match place {
        Place::Edge { flow, edge } => floats(store.buffer(flow, edge).unwrap()),
        Place::Input(no) => floats(input.get(no.0).unwrap()),
        Place::Output(_) => panic!("a plan reads no output"),
    }
}

fn write(store: &mut Store, output: &mut SlotMap<Buffer>, place: Place, values: &[f32]) {
    match place {
        Place::Edge { flow, edge } => {
            let mut b = Buffer::new(Type::Event(PrimType::U32));
            assert!(store.swap_buffer(flow, edge, &mut b));
            set_floats(&mut b, values);
            assert!(store.swap_buffer(flow, edge, &mut b));
        }
        Place::Output(no) => set_floats(output.get_mut(no.0).unwrap(), values),
        Place::Input(_) => panic!("a plan writes no input"),
    }
}

fn held(store: &Store, output: &SlotMap<Buffer>, place: Place) -> Vec<f32> {
    match place {
        Place::Edge { flow, edge } => floats(store.buffer(flow, edge).unwrap()),
        Place::Output(no) => floats(output.get(no.0).unwrap()),
        Place::Input(_) => panic!("a plan writes no input"),
    }
}

/// The float unit: finishes the operation at which a run halted.
fn float_unit(store: &mut Store, op: &Op, output: &mut SlotMap<Buffer>, input: &SlotMap<Buffer>) {
    match *op {
        Op::Merge { target, source } => {
            let x = read(store, input, source);
            let y = held(store, output, target);
            let sum: Vec<f32> = y
                .iter()
                .enumerate()
                .map(|(i, y)| if i < x.len() { *y + x[i] } else { *y })
                .collect();
            write(store, output, target, &sum);
        }
        Op::Prim { prim: prim @ PrimElement::SineOscF32 { .. }, flow, node } => {
            let (out, inp) = {
                let f = store.flow_store().get(flow).unwrap();
                (f.output_edges(node, OutputNo(0))[0], f.input_edges(node, InputNo(0))[0])
            };
            let freq = floats(store.buffer(flow, inp).unwrap());
            let mut phase = f32::from_bits(store.phase(prim).unwrap().0);
            let fs = store.sample_rate(prim).unwrap() as f32;
            let n = floats(store.buffer(flow, out).unwrap()).len();
            let mut y = vec![0.0f32; n];
            for (y, f) in y.iter_mut().zip(&freq) {
                phase += f / fs;
                *y = (phase * std::f32::consts::TAU).sin();
            }
            write(store, output, Place::Edge { flow, edge: out }, &y);
            assert!(store.set_phase(prim, F32(phase.to_bits())));
        }
        _ => panic!("nothing for the float unit"),
    }
}

fn drive(
    store: &mut Store,
    flow: FlowId,
    output: &mut SlotMap<Buffer>,
    input: &SlotMap<Buffer>,
    sz: usize,
) {
    let ops = store.plan(flow, output, input).expect("a plan");
    let mut from = 0;
    loop {
        let Halt { at, outcome } = store.run(&ops, from, output, input, sz);
        match outcome {
            Outcome::Done => {
                assert_eq!(at, ops.len());
                return;
            }
            Outcome::Pending => {
                float_unit(store, &ops[at], output, input);
                from = at + 1;
            }
            Outcome::Fault => panic!("fault at operation {}", at),
        }
    }
}

fn out_buffers(slots: &[(OutputNo, Type)]) -> SlotMap<Buffer> {
    let mut m = SlotMap::new();
    for (no, ty) in slots {
        m.insert(no.0, Buffer::new(*ty));
    }
    m
}

#[test]
fn fan_in_is_summation() {
    for sz in [1usize, 7, 64, 256] {
        let mut store = Store::new();
        let flow = store.add_flow();
        let a = store.add_element(flow, constant(2.0));
        let b = store.add_element(flow, constant(3.0));
        let (no, out) = store.add_output(flow, signal());
        store.add_edge(flow, a, OutputNo(0), out, InputNo(0)).unwrap();
        store.add_edge(flow, b, OutputNo(0), out, InputNo(0)).unwrap();
        let mut output = out_buffers(&[(no, signal())]);
        let input = SlotMap::new();
        drive(&mut store, flow, &mut output, &input, sz);
        assert_eq!(floats(output.get(no.0).unwrap()), vec![5.0; sz]);
        drive(&mut store, flow, &mut output, &input, sz);
        assert_eq!(floats(output.get(no.0).unwrap()), vec![5.0; sz]);
    }
}

#[test]
fn fan_in_of_integers_needs_no_float_unit() {
    let mut store = Store::new();
    let flow = store.add_flow();
    let a = store.add_element(flow, count(2));
    let b = store.add_element(flow, count(3));
    let c = store.add_element(flow, count(u32::MAX));
    let (no, out) = store.add_output(flow, counts());
    store.add_edge(flow, a, OutputNo(0), out, InputNo(0)).unwrap();
    store.add_edge(flow, b, OutputNo(0), out, InputNo(0)).unwrap();
    let mut output = out_buffers(&[(no, counts())]);
    let input = SlotMap::new();
    let (ops, halt) = store.compute_outplace(flow, &mut output, &input, 9).unwrap();
    assert_eq!((halt.at, halt.outcome), (ops.len(), Outcome::Done));
    assert_eq!(numbers(output.get(no.0).unwrap()), vec![5; 9]);
    store.add_edge(flow, c, OutputNo(0), out, InputNo(0)).unwrap();
    let (_, halt) = store.compute_outplace(flow, &mut output, &input, 4).unwrap();
    assert_eq!(halt.outcome, Outcome::Done);
    assert_eq!(numbers(output.get(no.0).unwrap()), vec![4; 4]);
}

#[test]
fn a_float_mix_halts_for_the_float_unit() {
    let mut store = Store::new();
    let flow = store.add_flow();
    let a = store.add_element(flow, constant(2.0));
    let b = store.add_element(flow, constant(3.0));
    let (no, out) = store.add_output(flow, signal());
    store.add_edge(flow, a, OutputNo(0), out, InputNo(0)).unwrap();
    store.add_edge(flow, b, OutputNo(0), out, InputNo(0)).unwrap();
    let mut output = out_buffers(&[(no, signal())]);
    let input = SlotMap::new();
    let (ops, halt) = store.compute_outplace(flow, &mut output, &input, 4).unwrap();
    assert_eq!(halt.outcome, Outcome::Pending);
    assert!(matches!(ops[halt.at], Op::Merge { target: Place::Output(n), .. } if n == no));
    assert_eq!(halt.at, ops.len() - 1);
    // the edge added last is walked first: it was copied, the other awaits
    // the float unit
    assert_eq!(floats(output.get(no.0).unwrap()), vec![3.0; 4]);
}

#[test]
fn fan_out_is_replication() {
    let mut store = Store::new();
    let flow = store.add_flow();
    let c = store.add_element(flow, constant(7.0));
    let (no_a, out_a) = store.add_output(flow, signal());
    let (no_b, out_b) = store.add_output(flow, signal());
    let e_a = store.add_edge(flow, c, OutputNo(0), out_a, InputNo(0)).unwrap().0;
    let e_b = store.add_edge(flow, c, OutputNo(0), out_b, InputNo(0)).unwrap().0;
    let mut output = out_buffers(&[(no_a, signal()), (no_b, signal())]);
    let input = SlotMap::new();
    let (ops, halt) = store.compute_outplace(flow, &mut output, &input, 32).unwrap();
    assert_eq!((halt.at, halt.outcome), (ops.len(), Outcome::Done));
    assert_eq!(floats(output.get(no_a.0).unwrap()), vec![7.0; 32]);
    assert_eq!(floats(output.get(no_b.0).unwrap()), vec![7.0; 32]);
    set_floats(output.get_mut(no_a.0).unwrap(), &[1.0; 32]);
    assert_eq!(floats(output.get(no_b.0).unwrap()), vec![7.0; 32]);
    // each edge has a buffer of its own
    assert_eq!(floats(store.buffer(flow, e_a).unwrap()), vec![7.0; 32]);
    assert_eq!(floats(store.buffer(flow, e_b).unwrap()), vec![7.0; 32]);
    write(&mut store, &mut output, Place::Edge { flow, edge: e_a }, &[0.5; 32]);
    assert_eq!(floats(store.buffer(flow, e_b).unwrap()), vec![7.0; 32]);
}

#[test]
fn an_output_that_was_not_given_is_not_written() {
    let mut store = Store::new();
    let flow = store.add_flow();
    let c = store.add_element(flow, count(7));
    let (no_a, out_a) = store.add_output(flow, counts());
    let (no_b, out_b) = store.add_output(flow, counts());
    store.add_edge(flow, c, OutputNo(0), out_a, InputNo(0)).unwrap();
    store.add_edge(flow, c, OutputNo(0), out_b, InputNo(0)).unwrap();
    let mut output = out_buffers(&[(no_b, counts())]);
    let input = SlotMap::new();
    let (_, halt) = store.compute_outplace(flow, &mut output, &input, 3).unwrap();
    assert_eq!(halt.outcome, Outcome::Done);
    assert_eq!(output.len(), 1);
    assert!(output.get(no_a.0).is_none());
    assert_eq!(numbers(output.get(no_b.0).unwrap()), vec![7; 3]);
}

#[test]
fn an_output_without_edges_is_cleared() {
    let mut store = Store::new();
    let flow = store.add_flow();
    let (no, _) = store.add_output(flow, counts());
    let mut output = out_buffers(&[(no, counts())]);
    let b = output.get_mut(no.0).unwrap();
    b.update_size(2);
    b.fill(Value::U32(9));
    let input = SlotMap::new();
    let (ops, halt) = store.compute_outplace(flow, &mut output, &input, 5).unwrap();
    assert_eq!(halt.outcome, Outcome::Done);
    assert_eq!(numbers(output.get(no.0).unwrap()), vec![0; 5]);
    assert!(matches!(ops[..], [Op::Resize { .. }, Op::Resize { .. }, Op::Clear { .. }]));
}

#[test]
fn an_input_is_handed_to_every_edge() {
    let mut store = Store::new();
    let flow = store.add_flow();
    let (i0, inp) = store.add_input(flow, counts());
    let (o0, out_a) = store.add_output(flow, counts());
    let (o1, out_b) = store.add_output(flow, counts());
    store.add_edge(flow, inp, OutputNo(0), out_a, InputNo(0)).unwrap();
    store.add_edge(flow, inp, OutputNo(0), out_b, InputNo(0)).unwrap();
    let mut input = SlotMap::new();
    let mut given = Buffer::new(counts());
    given.update_size(4);
    given.fill(Value::U32(6));
    input.insert(i0.0, given);
    let mut output = out_buffers(&[(o0, counts()), (o1, counts())]);
    let (_, halt) = store.compute_outplace(flow, &mut output, &input, 4).unwrap();
    assert_eq!(halt.outcome, Outcome::Done);
    assert_eq!(numbers(output.get(o0.0).unwrap()), vec![6; 4]);
    assert_eq!(numbers(output.get(o1.0).unwrap()), vec![6; 4]);
    assert_eq!(numbers(input.get(i0.0).unwrap()), vec![6; 4]);
}

#[test]
fn an_input_that_was_not_given_clears_its_edges() {
    let mut store = Store::new();
    let flow = store.add_flow();
    let (i0, inp) = store.add_input(flow, counts());
    let (o0, out) = store.add_output(flow, counts());
    let e = store.add_edge(flow, inp, OutputNo(0), out, InputNo(0)).unwrap().0;
    let mut input = SlotMap::new();
    let mut given = Buffer::new(counts());
    given.update_size(4);
    given.fill(Value::U32(6));
    input.insert(i0.0, given);
    let mut output = out_buffers(&[(o0, counts())]);
    store.compute_outplace(flow, &mut output, &input, 4).unwrap();
    assert_eq!(numbers(store.buffer(flow, e).unwrap()), vec![6; 4]);
    let silent: SlotMap<Buffer> = SlotMap::new();
    let (ops, halt) = store.compute_outplace(flow, &mut output, &silent, 4).unwrap();
    assert_eq!(halt.outcome, Outcome::Done);
    assert!(ops.iter().any(|op| matches!(op, Op::Clear { target: Place::Edge { edge, .. } } if *edge == e)));
    assert_eq!(numbers(store.buffer(flow, e).unwrap()), vec![0; 4]);
    assert_eq!(numbers(output.get(o0.0).unwrap()), vec![0; 4]);
}

#[test]
fn oscillator_runs_on_across_blocks() {
    let f_nyq: u64 = 22050;
    let freq = 440.0f32;
    let block = 64usize;
    let blocks = 4usize;
    let mut store = Store::new();
    let flow = store.add_flow();
    let osc_id = PrimElement::SineOscF32 { f_nyq };
    let c = store.add_element(flow, constant(freq));
    let o = store.add_element(flow, Element::Prim(osc_id));
    let (no, out) = store.add_output(flow, signal());
    store.add_edge(flow, c, OutputNo(0), o, InputNo(0)).unwrap();
    store.add_edge(flow, o, OutputNo(0), out, InputNo(0)).unwrap();
    let mut output = out_buffers(&[(no, signal())]);
    let input = SlotMap::new();
    let mut got: Vec<f32> = Vec::new();
    for _ in 0..blocks {
        drive(&mut store, flow, &mut output, &input, block);
        got.extend(floats(output.get(no.0).unwrap()));
    }
    assert_eq!(got.len(), blocks * block);
    let step = freq as f64 / (2.0 * f_nyq as f64);
    for (i, y) in got.iter().enumerate() {
        let want = (std::f64::consts::TAU * step * (i as f64 + 1.0)).sin();
        assert!((*y as f64 - want).abs() < 1e-3, "sample {}: {} for {}", i, y, want);
    }
    let phase = f32::from_bits(store.phase(osc_id).unwrap().0);
    assert!((phase as f64 - step * (blocks * block) as f64).abs() < 1e-3);
    assert_eq!(store.sample_rate(osc_id), Some(44100));
}

#[test]
fn an_oscillator_without_frequency_is_silent() {
    let mut store = Store::new();
    let flow = store.add_flow();
    let o = store.add_element(flow, Element::Prim(PrimElement::SineOscF32 { f_nyq: F_NYQ }));
    let (no, out) = store.add_output(flow, signal());
    let e = store.add_edge(flow, o, OutputNo(0), out, InputNo(0)).unwrap().0;
    write_ones(&mut store, flow, e, 3);
    let mut output = out_buffers(&[(no, signal())]);
    let input = SlotMap::new();
    let (_, halt) = store.compute_outplace(flow, &mut output, &input, 8).unwrap();
    assert_eq!(halt.outcome, Outcome::Done);
    assert_eq!(floats(output.get(no.0).unwrap()), vec![0.0; 8]);
}

fn write_ones(store: &mut Store, flow: FlowId, edge: EdgeIx, n: usize) {
    let mut b = Buffer::new(Type::Sampled { ty: PrimType::F32, f_nyq: F_NYQ });
    b.update_size(n);
    b.fill(Value::F32(F32(1.0f32.to_bits())));
    assert!(store.swap_buffer(flow, edge, &mut b));
}

#[test]
fn blocks_of_one_size_keep_the_storage() {
    let mut store = Store::new();
    let flow = store.add_flow();
    let a = store.add_element(flow, count(2));
    let b = store.add_element(flow, count(3));
    let (no, out) = store.add_output(flow, counts());
    let e_a = store.add_edge(flow, a, OutputNo(0), out, InputNo(0)).unwrap().0;
    let e_b = store.add_edge(flow, b, OutputNo(0), out, InputNo(0)).unwrap().0;
    let mut output = out_buffers(&[(no, counts())]);
    let input = SlotMap::new();
    let spot = |b: &Buffer| match b {
        Buffer::Sampled(GenericSampledBuffer::U32(s)) => (s.samples.as_ptr(), s.samples.capacity()),
        _ => panic!("no u32 signal"),
    };
    store.compute_outplace(flow, &mut output, &input, 128).unwrap();
    let first = (
        spot(output.get(no.0).unwrap()),
        spot(store.buffer(flow, e_a).unwrap()),
        spot(store.buffer(flow, e_b).unwrap()),
    );
    for _ in 0..20 {
        let (_, halt) = store.compute_outplace(flow, &mut output, &input, 128).unwrap();
        assert_eq!(halt.outcome, Outcome::Done);
        let now = (
            spot(output.get(no.0).unwrap()),
            spot(store.buffer(flow, e_a).unwrap()),
            spot(store.buffer(flow, e_b).unwrap()),
        );
        assert_eq!(now, first);
        assert_eq!(numbers(output.get(no.0).unwrap()), vec![5; 128]);
    }
}

#[test]
fn a_nested_flow_computes_into_the_edges_around_it() {
    let mut store = Store::new();
    // inner: its input plus one, mixed
    let inner = store.add_flow();
    let (i0, inp) = store.add_input(inner, counts());
    let one = store.add_element(inner, count(1));
    let (o0, out) = store.add_output(inner, counts());
    store.add_edge(inner, inp, OutputNo(0), out, InputNo(0)).unwrap();
    store.add_edge(inner, one, OutputNo(0), out, InputNo(0)).unwrap();
    // outer: 4 and 5 into the nested flow, its output to two outputs
    let outer = store.add_flow();
    let four = store.add_element(outer, count(4));
    let five = store.add_element(outer, count(5));
    let nested = store.add_element(outer, Element::Flow(inner));
    let (a, out_a) = store.add_output(outer, counts());
    let (b, out_b) = store.add_output(outer, counts());
    store.add_edge(outer, four, OutputNo(0), nested, i0).unwrap();
    store.add_edge(outer, five, OutputNo(0), nested, i0).unwrap();
    store.add_edge(outer, nested, o0, out_a, InputNo(0)).unwrap();
    store.add_edge(outer, nested, o0, out_b, InputNo(0)).unwrap();
    let mut output = out_buffers(&[(a, counts()), (b, counts())]);
    let input = SlotMap::new();
    let (ops, halt) = store.compute_outplace(outer, &mut output, &input, 6).unwrap();
    assert_eq!((halt.at, halt.outcome), (ops.len(), Outcome::Done));
    assert_eq!(numbers(output.get(a.0).unwrap()), vec![10; 6]);
    assert_eq!(numbers(output.get(b.0).unwrap()), vec![10; 6]);
    // the inner flow alone, with nothing given, gives its constant
    let mut inner_out = out_buffers(&[(o0, counts())]);
    let mut given = SlotMap::new();
    let mut three = Buffer::new(counts());
    three.update_size(2);
    three.fill(Value::U32(3));
    given.insert(i0.0, three);
    let (_, halt) = store.compute_outplace(inner, &mut inner_out, &given, 2).unwrap();
    assert_eq!(halt.outcome, Outcome::Done);
    assert_eq!(numbers(inner_out.get(o0.0).unwrap()), vec![4; 2]);
}

#[test]
fn there_is_no_plan_for_a_flow_nested_in_itself() {
    let mut store = Store::new();
    let a = store.add_flow();
    let b = store.add_flow();
    store.add_element(a, Element::Flow(b));
    let output: SlotMap<Buffer> = SlotMap::new();
    let input: SlotMap<Buffer> = SlotMap::new();
    assert!(store.plan(a, &output, &input).is_some());
    store.add_element(b, Element::Flow(a));
    assert!(store.plan(a, &output, &input).is_none());
    assert!(store.plan(b, &output, &input).is_none());
    let mut out = SlotMap::new();
    assert!(store.compute_outplace(a, &mut out, &input, 4).is_none());
}

#[test]
fn there_is_no_plan_without_the_flow() {
    let mut store = Store::new();
    let a = store.add_flow();
    let output: SlotMap<Buffer> = SlotMap::new();
    let input: SlotMap<Buffer> = SlotMap::new();
    assert!(store.plan(FlowId(5), &output, &input).is_none());
    assert_eq!(store.plan(a, &output, &input).unwrap().len(), 0);
    store.add_element(a, Element::Flow(FlowId(5)));
    assert!(store.plan(a, &output, &input).is_none());
}

#[test]
fn the_plan_of_an_element_gathers_computes_and_spreads() {
    let mut store = Store::new();
    let flow = store.add_flow();
    let a = store.add_element(flow, constant(1.0));
    let b = store.add_element(flow, constant(2.0));
    let osc_id = PrimElement::SineOscF32 { f_nyq: F_NYQ };
    let o = store.add_element(flow, Element::Prim(osc_id));
    let (n0, out_a) = store.add_output(flow, signal());
    let (n1, out_b) = store.add_output(flow, signal());
    store.add_edge(flow, a, OutputNo(0), o, InputNo(0)).unwrap();
    store.add_edge(flow, b, OutputNo(0), o, InputNo(0)).unwrap();
    store.add_edge(flow, o, OutputNo(0), out_a, InputNo(0)).unwrap();
    store.add_edge(flow, o, OutputNo(0), out_b, InputNo(0)).unwrap();
    let output = out_buffers(&[(n0, signal()), (n1, signal())]);
    let input = SlotMap::new();
    let ops = store.plan(flow, &output, &input).unwrap();
    let f = store.flow_store().get(flow).unwrap();
    let ins = f.input_edges(o, InputNo(0));
    let outs = f.output_edges(o, OutputNo(0));
    let on = |edge: EdgeIx| Place::Edge { flow, edge };
    let at = ops
        .iter()
        .position(|op| matches!(op, Op::Prim { prim, node, .. } if *prim == osc_id && *node == o))
        .unwrap();
    // before it: the first input edge brought to length, the other mixed in,
    // the first output edge brought to length
    assert!(matches!(ops[at - 3], Op::Resize { target } if target == on(ins[0])));
    assert!(
        matches!(ops[at - 2], Op::Merge { target, source } if target == on(ins[0]) && source == on(ins[1]))
    );
    assert!(matches!(ops[at - 1], Op::Resize { target } if target == on(outs[0])));
    // after it: the other output edge made a copy of the first
    assert!(matches!(ops[at + 1], Op::Resize { target } if target == on(outs[1])));
    assert!(
        matches!(ops[at + 2], Op::Copy { target, source } if target == on(outs[1]) && source == on(outs[0]))
    );
    // at the head: the given outputs are brought to length
    assert!(matches!(ops[0], Op::Resize { target: Place::Output(n) } if n == n0));
    assert!(matches!(ops[1], Op::Resize { target: Place::Output(n) } if n == n1));
    let _ = (out_a, out_b);
}

#[test]
fn an_operation_without_its_buffer_is_a_fault() {
    let mut store = Store::new();
    let flow = store.add_flow();
    let mut output: SlotMap<Buffer> = SlotMap::new();
    output.insert(0, Buffer::new(counts()));
    let input: SlotMap<Buffer> = SlotMap::new();
    let ops = vec![
        Op::Resize { target: Place::Output(OutputNo(0)) },
        Op::Clear { target: Place::Output(OutputNo(5)) },
        Op::Resize { target: Place::Output(OutputNo(0)) },
    ];
    let halt = store.run(&ops, 0, &mut output, &input, 3);
    assert_eq!((halt.at, halt.outcome), (1, Outcome::Fault));
    assert_eq!(numbers(output.get(0).unwrap()), vec![0; 3]);
    let halt = store.run(&ops, 2, &mut output, &input, 5);
    assert_eq!((halt.at, halt.outcome), (3, Outcome::Done));
    assert_eq!(numbers(output.get(0).unwrap()), vec![0; 5]);
    let halt = store.run(&ops, 7, &mut output, &input, 1);
    assert_eq!((halt.at, halt.outcome), (7, Outcome::Done));
    let missing = vec![Op::Copy {
        target: Place::Output(OutputNo(0)),
        source: Place::Edge { flow, edge: EdgeIx(0) },
    }];
    assert_eq!(store.run(&missing, 0, &mut output, &input, 1).outcome, Outcome::Fault);
    let unread = vec![Op::Copy {
        target: Place::Output(OutputNo(0)),
        source: Place::Output(OutputNo(0)),
    }];
    assert_eq!(store.run(&unread, 0, &mut output, &input, 1).outcome, Outcome::Fault);
    let unwritten = vec![Op::Clear { target: Place::Input(InputNo(0)) }];
    assert_eq!(store.run(&unwritten, 0, &mut output, &input, 1).outcome, Outcome::Fault);
}

#[test]
fn a_mix_of_two_kinds_is_a_fault() {
    let mut store = Store::new();
    let _ = store.add_flow();
    let mut output: SlotMap<Buffer> = SlotMap::new();
    output.insert(0, Buffer::new(counts()));
    let mut input: SlotMap<Buffer> = SlotMap::new();
    input.insert(0, Buffer::new(signal()));
    input.insert(1, Buffer::new(counts()));
    let ops = vec![
        Op::Resize { target: Place::Output(OutputNo(0)) },
        Op::Merge { target: Place::Output(OutputNo(0)), source: Place::Input(InputNo(1)) },
        Op::Merge { target: Place::Output(OutputNo(0)), source: Place::Input(InputNo(0)) },
    ];
    let halt = store.run(&ops, 0, &mut output, &input, 2);
    assert_eq!((halt.at, halt.outcome), (2, Outcome::Fault));
    assert_eq!(numbers(output.get(0).unwrap()), vec![0; 2]);
}

#[test]
fn a_primitive_that_is_not_in_use_is_a_fault() {
    let mut store = Store::new();
    let flow = store.add_flow();
    let mut output: SlotMap<Buffer> = SlotMap::new();
    let input: SlotMap<Buffer> = SlotMap::new();
    let prim = PrimElement::Constant { value: Value::U32(1), f_nyq: 1 };
    let ops = vec![Op::Prim { prim, flow, node: NodeIx(0) }];
    assert_eq!(store.run(&ops, 0, &mut output, &input, 2).outcome, Outcome::Fault);
    let n = store.add_element(flow, Element::Prim(prim));
    let ops = vec![Op::Prim { prim, flow, node: n }];
    assert_eq!(store.run(&ops, 0, &mut output, &input, 2).outcome, Outcome::Done);
    let ops = vec![Op::Prim { prim, flow: FlowId(9), node: n }];
    assert_eq!(store.run(&ops, 0, &mut output, &input, 2).outcome, Outcome::Fault);
}

#[test]
fn copies_and_mixes_between_edges() {
    let mut store = Store::new();
    let flow = store.add_flow();
    let a = store.add_element(flow, count(2));
    let b = store.add_element(flow, count(3));
    let (_, out) = store.add_output(flow, counts());
    let e_a = store.add_edge(flow, a, OutputNo(0), out, InputNo(0)).unwrap().0;
    let e_b = store.add_edge(flow, b, OutputNo(0), out, InputNo(0)).unwrap().0;
    let mut output: SlotMap<Buffer> = SlotMap::new();
    let input: SlotMap<Buffer> = SlotMap::new();
    let on = |edge: EdgeIx| Place::Edge { flow, edge };
    let ops = vec![
        Op::Prim { prim: PrimElement::Constant { value: Value::U32(2), f_nyq: F_NYQ }, flow, node: a },
        Op::Prim { prim: PrimElement::Constant { value: Value::U32(3), f_nyq: F_NYQ }, flow, node: b },
        Op::Merge { target: on(e_a), source: on(e_b) },
        Op::Copy { target: on(e_b), source: on(e_a) },
        Op::Copy { target: on(e_a), source: on(e_a) },
        Op::Merge { target: on(e_a), source: on(e_a) },
    ];
    let halt = store.run(&ops, 0, &mut output, &input, 3);
    assert_eq!((halt.at, halt.outcome), (5, Outcome::Fault));
    assert_eq!(numbers(store.buffer(flow, e_a).unwrap()), vec![5; 3]);
    assert_eq!(numbers(store.buffer(flow, e_b).unwrap()), vec![5; 3]);
}
