use sigflow::element::Element;
use sigflow::flow::{next_no, Edge, EdgeError, Flow, Node};
use sigflow::flow_store::{FlowId, FlowStore};
use sigflow::graph::{EdgeIx, NodeIx};
use sigflow::prim_element::PrimElement;
use sigflow::slot_table::SlotTable;
use sigflow::store::Store;
use sigflow::value::{InputNo, OutputNo, PrimType, Type, Value, F32};

const F_NYQ: u64 = 22050;

fn signal() -> Type {
    Type::Sampled { ty: PrimType::F32, f_nyq: F_NYQ }
}

fn osc() -> Element {
    Element::Prim(PrimElement::SineOscF32 { f_nyq: F_NYQ })
}

fn constant(x: f32) -> Element {
    Element::Prim(PrimElement::Constant { value: Value::F32(F32(x.to_bits())), f_nyq: F_NYQ })
}

fn edge_count(store: &Store, flow: FlowId, nodes: &[NodeIx]) -> usize {
    let f = store.flow_store().get(flow).unwrap();
    nodes.iter().map(|n| f.children(*n).len()).sum()
}

#[test]
fn connecting_equal_types_succeeds() {
    let mut store = Store::new();
    let flow = store.add_flow();
    let c = store.add_element(flow, constant(1.0));
    let (_, out) = store.add_output(flow, signal());
    let (edge, ty) = store.add_edge(flow, c, OutputNo(0), out, InputNo(0)).unwrap();
    assert_eq!(ty, signal());
    let f = store.flow_store().get(flow).unwrap();
    assert_eq!(*f.get_edge(edge).unwrap(), Edge { output_no: OutputNo(0), input_no: InputNo(0), ty });
    assert_eq!(f.parents(out), vec![(edge, c)]);
    assert_eq!(f.children(c), vec![(edge, out)]);
}

#[test]
fn connecting_two_sample_rates_is_a_type_mismatch() {
    let mut store = Store::new();
    let flow = store.add_flow();
    let c = store.add_element(flow, constant(1.0));
    let (_, out) = store.add_output(flow, Type::Sampled { ty: PrimType::F32, f_nyq: 24000 });
    assert_eq!(store.add_edge(flow, c, OutputNo(0), out, InputNo(0)), Err(EdgeError::TypeMismatch));
    assert_eq!(edge_count(&store, flow, &[c, out]), 0);
    assert!(store.buffer(flow, EdgeIx(0)).is_none());
}

#[test]
fn connecting_two_kinds_is_a_type_mismatch() {
    let mut store = Store::new();
    let flow = store.add_flow();
    let c = store.add_element(
        flow,
        Element::Prim(PrimElement::Constant { value: Value::U32(1), f_nyq: F_NYQ }),
    );
    let (_, out) = store.add_output(flow, signal());
    assert_eq!(store.add_edge(flow, c, OutputNo(0), out, InputNo(0)), Err(EdgeError::TypeMismatch));
    let (_, events) = store.add_output(flow, Type::Event(PrimType::U32));
    assert_eq!(store.add_edge(flow, c, OutputNo(0), events, InputNo(0)), Err(EdgeError::TypeMismatch));
}

#[test]
fn an_edge_that_closes_a_cycle_is_refused() {
    let mut store = Store::new();
    let flow = store.add_flow();
    let a = store.add_element(flow, osc());
    let b = store.add_element(flow, osc());
    let c = store.add_element(flow, osc());
    store.add_edge(flow, a, OutputNo(0), b, InputNo(0)).unwrap();
    store.add_edge(flow, b, OutputNo(0), c, InputNo(0)).unwrap();
    let before = edge_count(&store, flow, &[a, b, c]);
    assert_eq!(before, 2);
    assert_eq!(store.add_edge(flow, c, OutputNo(0), a, InputNo(0)), Err(EdgeError::WouldCycle));
    assert_eq!(store.add_edge(flow, b, OutputNo(0), a, InputNo(0)), Err(EdgeError::WouldCycle));
    assert_eq!(edge_count(&store, flow, &[a, b, c]), before);
    let f = store.flow_store().get(flow).unwrap();
    assert_eq!(f.visit_order(), &vec![a, b, c]);
    assert!(f.parents(a).is_empty());
}

#[test]
fn an_edge_from_a_node_to_itself_is_refused() {
    let mut store = Store::new();
    let flow = store.add_flow();
    let lone = store.add_element(flow, osc());
    assert_eq!(store.add_edge(flow, lone, OutputNo(0), lone, InputNo(0)), Err(EdgeError::WouldCycle));
    let a = store.add_element(flow, osc());
    let b = store.add_element(flow, osc());
    let c = store.add_element(flow, osc());
    store.add_edge(flow, a, OutputNo(0), b, InputNo(0)).unwrap();
    store.add_edge(flow, b, OutputNo(0), c, InputNo(0)).unwrap();
    assert_eq!(store.add_edge(flow, b, OutputNo(0), b, InputNo(0)), Err(EdgeError::WouldCycle));
    assert_eq!(edge_count(&store, flow, &[lone, a, b, c]), 2);
}

#[test]
fn parallel_edges_and_diamonds_are_no_cycles() {
    let mut store = Store::new();
    let flow = store.add_flow();
    let a = store.add_element(flow, osc());
    let b = store.add_element(flow, osc());
    let c = store.add_element(flow, osc());
    let e1 = store.add_edge(flow, a, OutputNo(0), b, InputNo(0)).unwrap().0;
    let e2 = store.add_edge(flow, a, OutputNo(0), b, InputNo(0)).unwrap().0;
    assert_ne!(e1, e2);
    store.add_edge(flow, a, OutputNo(0), c, InputNo(0)).unwrap();
    store.add_edge(flow, b, OutputNo(0), c, InputNo(0)).unwrap();
    assert_eq!(edge_count(&store, flow, &[a, b, c]), 4);
    let f = store.flow_store().get(flow).unwrap();
    assert_eq!(f.input_edges(b, InputNo(0)).len(), 2);
    assert_eq!(f.output_edges(a, OutputNo(0)).len(), 3);
}

#[test]
fn the_visit_order_lists_every_node_and_follows_the_edges() {
    let mut store = Store::new();
    let flow = store.add_flow();
    let (_, out) = store.add_output(flow, signal());
    let o = store.add_element(flow, osc());
    let c = store.add_element(flow, constant(440.0));
    let idle = store.add_element(flow, constant(1.0));
    store.add_edge(flow, o, OutputNo(0), out, InputNo(0)).unwrap();
    store.add_edge(flow, c, OutputNo(0), o, InputNo(0)).unwrap();
    let f = store.flow_store().get(flow).unwrap();
    let order = f.visit_order().clone();
    assert_eq!(order.len(), 4);
    let place = |n: NodeIx| order.iter().position(|x| *x == n).unwrap();
    assert!(place(c) < place(o));
    assert!(place(o) < place(out));
    let _ = place(idle);
}

#[test]
fn a_node_added_last_is_in_the_visit_order_at_once() {
    let mut store = Store::new();
    let flow = store.add_flow();
    let a = store.add_element(flow, osc());
    let (_, out) = store.add_output(flow, signal());
    let (_, inp) = store.add_input(flow, signal());
    let f = store.flow_store().get(flow).unwrap();
    let mut order = f.visit_order().clone();
    order.sort();
    assert_eq!(order, vec![a, out, inp]);
}

#[test]
fn slot_numbers_count_up_and_are_given_again() {
    let mut store = Store::new();
    let flow = store.add_flow();
    let (i0, n0) = store.add_input(flow, signal());
    let (i1, _) = store.add_input(flow, signal());
    let (i2, n2) = store.add_input(flow, Type::Event(PrimType::U32));
    assert_eq!((i0, i1, i2), (InputNo(0), InputNo(1), InputNo(2)));
    let (o0, _) = store.add_output(flow, signal());
    assert_eq!(o0, OutputNo(0));
    store.remove_node(flow, n0);
    let (i3, _) = store.add_input(flow, signal());
    assert_eq!(i3, InputNo(3));
    store.remove_node(flow, n2);
    {
        let f = store.flow_store().get(flow).unwrap();
        assert_eq!(f.input_nos(), vec![InputNo(1), InputNo(3)]);
        assert_eq!(f.input_types(), vec![(InputNo(1), signal()), (InputNo(3), signal())]);
        assert_eq!(f.output_nos(), vec![OutputNo(0)]);
        assert_eq!(f.output_types(), vec![(OutputNo(0), signal())]);
    }
    let (i4, _) = store.add_input(flow, signal());
    assert_eq!(i4, InputNo(4));
}

#[test]
fn next_no_scans_round_past_the_largest_number() {
    let t = Type::Event(PrimType::U32);
    let mut table = SlotTable::new();
    assert_eq!(next_no(&table), 0);
    table.insert(0, t);
    assert_eq!(next_no(&table), 1);
    table.insert(5, t);
    assert_eq!(next_no(&table), 6);
    table.insert(u32::MAX, t);
    assert_eq!(next_no(&table), 1);
    table.insert(1, t);
    table.insert(2, t);
    assert_eq!(next_no(&table), 3);
    table.remove(0);
    assert_eq!(next_no(&table), 0);
    table.remove(u32::MAX);
    assert_eq!(next_no(&table), 6);
}

#[test]
fn removing_a_node_frees_its_slot_its_edges_and_their_buffers() {
    let mut store = Store::new();
    let flow = store.add_flow();
    let (i0, input) = store.add_input(flow, signal());
    let o = store.add_element(flow, osc());
    let (o0, out_a) = store.add_output(flow, signal());
    let (o1, out_b) = store.add_output(flow, signal());
    let e_in = store.add_edge(flow, input, OutputNo(0), o, InputNo(0)).unwrap().0;
    let e_a = store.add_edge(flow, o, OutputNo(0), out_a, InputNo(0)).unwrap().0;
    let e_b = store.add_edge(flow, o, OutputNo(0), out_b, InputNo(0)).unwrap().0;
    for e in [e_in, e_a, e_b] {
        assert!(store.buffer(flow, e).is_some());
    }
    // the edges first, then the node
    assert!(store.remove_edge(flow, e_a));
    assert!(store.buffer(flow, e_a).is_none());
    assert!(!store.remove_edge(flow, e_a));
    let gone = store.remove_node(flow, out_a);
    assert!(matches!(gone, Some(Node::Output { no, .. }) if no == o0));
    assert_eq!(store.flow_store().get(flow).unwrap().output_nos(), vec![o1]);
    // the node with its edges
    let gone = store.remove_node(flow, o);
    assert!(matches!(gone, Some(Node::Element(_))));
    assert!(store.buffer(flow, e_in).is_none());
    assert!(store.buffer(flow, e_b).is_none());
    {
        let f = store.flow_store().get(flow).unwrap();
        assert!(f.get_node(o).is_none());
        assert!(f.get_edge(e_in).is_none());
        assert!(f.children(input).is_empty());
        assert!(f.parents(out_b).is_empty());
        assert_eq!(f.visit_order().len(), 2);
    }
    let gone = store.remove_node(flow, input);
    assert!(matches!(gone, Some(Node::Input { no, .. }) if no == i0));
    assert!(store.flow_store().get(flow).unwrap().input_nos().is_empty());
    assert!(store.remove_node(flow, input).is_none());
}

#[test]
fn indices_of_removed_nodes_and_edges_are_given_again() {
    let mut store = Store::new();
    let flow = store.add_flow();
    let a = store.add_element(flow, osc());
    let b = store.add_element(flow, osc());
    let e = store.add_edge(flow, a, OutputNo(0), b, InputNo(0)).unwrap().0;
    assert!(store.remove_edge(flow, e));
    let e2 = store.add_edge(flow, b, OutputNo(0), a, InputNo(0)).unwrap().0;
    assert_eq!(e2, e);
    assert!(store.buffer(flow, e2).is_some());
    store.remove_node(flow, a);
    assert!(store.buffer(flow, e2).is_none());
    let c = store.add_element(flow, constant(1.0));
    assert_eq!(c, a);
    assert!(matches!(store.flow_store().get(flow).unwrap().node(c), Node::Element(x) if *x == constant(1.0)));
}

#[test]
fn flows_get_the_next_free_identifier() {
    let mut store = Store::new();
    let a = store.add_flow();
    let b = store.add_flow();
    let c = store.add_flow();
    assert_eq!((a, b, c), (FlowId(0), FlowId(1), FlowId(2)));
    let (flow, _) = store.remove_flow(b);
    assert!(flow.visit_order().is_empty());
    assert!(store.flow_store().get(b).is_none());
    assert!(store.processor_store().get(b).is_none());
    let d = store.add_flow();
    assert_eq!(d, FlowId(3));
    assert_eq!(store.flow_store().len(), 3);
}

#[test]
fn a_flow_store_skips_identifiers_in_use() {
    let mut flows = FlowStore::new();
    let a = flows.add(Flow::new());
    assert_eq!(a, FlowId(0));
    let taken = flows.remove(a).unwrap();
    flows.restore(FlowId(1), taken);
    flows.restore(FlowId(2), Flow::new());
    let b = flows.add(Flow::new());
    assert_eq!(b, FlowId(3));
    assert!(flows.contains(FlowId(1)));
    assert!(!flows.contains(FlowId(0)));
    assert!(flows.get_mut(FlowId(2)).is_some());
    assert!(flows.get_mut(FlowId(9)).is_none());
}

#[test]
fn nested_flows_show_their_declared_slots() {
    let mut store = Store::new();
    let inner = store.add_flow();
    let (i0, _) = store.add_input(inner, signal());
    let (i1, _) = store.add_input(inner, Type::Event(PrimType::U32));
    let (o0, _) = store.add_output(inner, signal());
    let outer = store.add_flow();
    let nested = Element::Flow(inner);
    let n = store.add_element(outer, nested);
    let flows = store.flow_store();
    assert_eq!(nested.input_nos(flows), vec![i0, i1]);
    assert_eq!(nested.output_nos(flows), vec![o0]);
    let types = nested.input_types(flows);
    assert_eq!(types.get(1), Some(&Type::Event(PrimType::U32)));
    let node = *flows.get(outer).unwrap().node(n);
    assert_eq!(node.output_types(flows).get(0), Some(&signal()));
    assert_eq!(node.input_types(flows).len(), 2);
    let c = store.add_element(outer, constant(1.0));
    assert!(store.add_edge(outer, c, OutputNo(0), n, InputNo(0)).is_ok());
    assert_eq!(store.add_edge(outer, c, OutputNo(0), n, InputNo(1)), Err(EdgeError::TypeMismatch));
}

#[test]
fn primitives_declare_their_slots() {
    let o = PrimElement::SineOscF32 { f_nyq: 7 };
    assert_eq!(o.input_types().into_entries(), vec![(0, Type::Sampled { ty: PrimType::F32, f_nyq: 7 })]);
    assert_eq!(o.output_types().into_entries(), vec![(0, Type::Sampled { ty: PrimType::F32, f_nyq: 7 })]);
    let c = PrimElement::Constant { value: Value::I32(3), f_nyq: 9 };
    assert!(c.input_types().into_entries().is_empty());
    assert_eq!(c.output_types().into_entries(), vec![(0, Type::Sampled { ty: PrimType::I32, f_nyq: 9 })]);
}

#[test]
fn input_and_output_nodes_have_one_slot() {
    let store = FlowStore::new();
    let i = Node::Input { no: InputNo(4), ty: signal() };
    assert!(i.input_types(&store).into_entries().is_empty());
    assert_eq!(i.output_types(&store).into_entries(), vec![(0, signal())]);
    let o = Node::Output { no: OutputNo(4), ty: signal() };
    assert_eq!(o.input_types(&store).into_entries(), vec![(0, signal())]);
    assert!(o.output_types(&store).into_entries().is_empty());
}

#[test]
fn descriptors_are_equal_by_value() {
    assert!(constant(0.0) == constant(-0.0));
    assert!(constant(1.0) != constant(2.0));
    assert!(osc() != constant(1.0));
    assert!(osc() == osc());
    assert!(Element::Flow(FlowId(1)) == Element::Flow(FlowId(1)));
    assert!(Element::Flow(FlowId(1)) != Element::Flow(FlowId(2)));
    assert!(
        PrimElement::SineOscF32 { f_nyq: 1 } != PrimElement::SineOscF32 { f_nyq: 2 }
    );
}

#[test]
fn edges_by_slot() {
    let mut store = Store::new();
    let inner = store.add_flow();
    store.add_input(inner, signal());
    store.add_input(inner, signal());
    let outer = store.add_flow();
    let n = store.add_element(outer, Element::Flow(inner));
    let a = store.add_element(outer, constant(1.0));
    let b = store.add_element(outer, constant(2.0));
    let e0 = store.add_edge(outer, a, OutputNo(0), n, InputNo(0)).unwrap().0;
    let e1 = store.add_edge(outer, b, OutputNo(0), n, InputNo(1)).unwrap().0;
    let e2 = store.add_edge(outer, a, OutputNo(0), n, InputNo(1)).unwrap().0;
    let f = store.flow_store().get(outer).unwrap();
    assert_eq!(f.input_edges(n, InputNo(0)), vec![e0]);
    let mut slot1 = f.input_edges_with_node(n, InputNo(1));
    slot1.sort();
    assert_eq!(slot1, vec![(e1, b), (e2, a)]);
    let mut from_a = f.output_edges_with_node(a, OutputNo(0));
    from_a.sort();
    assert_eq!(from_a, vec![(e0, n), (e2, n)]);
    assert!(f.output_edges(a, OutputNo(1)).is_empty());
    assert_eq!(NodeIx::new(3).index(), 3);
    assert_eq!(EdgeIx::new(4).index(), 4);
}

#[test]
fn the_edge_added_last_is_walked_first() {
    let mut store = Store::new();
    let flow = store.add_flow();
    let a = store.add_element(flow, osc());
    let b = store.add_element(flow, osc());
    let c = store.add_element(flow, osc());
    let ab = store.add_edge(flow, a, OutputNo(0), b, InputNo(0)).unwrap().0;
    let ac = store.add_edge(flow, a, OutputNo(0), c, InputNo(0)).unwrap().0;
    let bc = store.add_edge(flow, b, OutputNo(0), c, InputNo(0)).unwrap().0;
    let ab2 = store.add_edge(flow, a, OutputNo(0), b, InputNo(0)).unwrap().0;
    {
        let f = store.flow_store().get(flow).unwrap();
        assert_eq!(f.children(a), vec![(ab2, b), (ac, c), (ab, b)]);
        assert_eq!(f.parents(b), vec![(ab2, a), (ab, a)]);
        assert_eq!(f.parents(c), vec![(bc, b), (ac, a)]);
        assert_eq!(f.children(b), vec![(bc, c)]);
        assert_eq!(f.input_edges(c, InputNo(0)), vec![bc, ac]);
        assert_eq!(f.output_edges(a, OutputNo(0)), vec![ab2, ac, ab]);
    }
    // a removed edge leaves the walks, the others keep their order
    assert!(store.remove_edge(flow, ac));
    {
        let f = store.flow_store().get(flow).unwrap();
        assert_eq!(f.children(a), vec![(ab2, b), (ab, b)]);
        assert_eq!(f.parents(c), vec![(bc, b)]);
        assert_eq!(f.parents(b), vec![(ab2, a), (ab, a)]);
    }
    // a new node changes no walk
    let d = store.add_element(flow, osc());
    let ad = store.add_edge(flow, a, OutputNo(0), d, InputNo(0)).unwrap().0;
    {
        let f = store.flow_store().get(flow).unwrap();
        assert_eq!(f.children(a), vec![(ad, d), (ab2, b), (ab, b)]);
        assert!(f.children(d).is_empty());
        assert_eq!(f.parents(d), vec![(ad, a)]);
    }
    // a removed node takes its edges out of the walks of the others
    store.remove_node(flow, b);
    {
        let f = store.flow_store().get(flow).unwrap();
        assert_eq!(f.children(a), vec![(ad, d)]);
        assert!(f.parents(c).is_empty());
        assert!(f.parents(b).is_empty());
        assert!(f.children(b).is_empty());
    }
}

#[test]
fn a_refused_edge_changes_no_walk() {
    let mut store = Store::new();
    let flow = store.add_flow();
    let a = store.add_element(flow, osc());
    let b = store.add_element(flow, osc());
    let c = store.add_element(flow, osc());
    let ab = store.add_edge(flow, a, OutputNo(0), b, InputNo(0)).unwrap().0;
    let bc = store.add_edge(flow, b, OutputNo(0), c, InputNo(0)).unwrap().0;
    let ac = store.add_edge(flow, a, OutputNo(0), c, InputNo(0)).unwrap().0;
    assert_eq!(store.add_edge(flow, c, OutputNo(0), a, InputNo(0)), Err(EdgeError::WouldCycle));
    assert_eq!(store.add_edge(flow, c, OutputNo(0), b, InputNo(0)), Err(EdgeError::WouldCycle));
    let f = store.flow_store().get(flow).unwrap();
    assert_eq!(f.children(a), vec![(ac, c), (ab, b)]);
    assert_eq!(f.parents(c), vec![(ac, a), (bc, b)]);
    assert!(f.children(c).is_empty());
    assert!(f.parents(a).is_empty());
    assert_eq!(f.visit_order().len(), 3);
}
