use arith_circuit::circuit::CircuitBuilder;
use arith_circuit::extension::Ext;
use arith_circuit::insertion::InsertionGate;
use arith_circuit::target::Target;
use arith_circuit::witness::Witness;
use arith_circuit::CircuitError;

fn build_row(vec_size: usize) -> (CircuitBuilder, InsertionGate, usize) {
    let mut b = CircuitBuilder::new();
    let gate = InsertionGate::new(vec_size);
    let base = b.add_insertion_row(&gate);
    (b, gate, base)
}

fn set_inputs(w: &mut Witness, base: usize, k: u64, e: u64, list: &[u64]) {
    w.try_set(Target { index: base + InsertionGate::wires_insertion_index() }, k).unwrap();
    w.try_set(Target { index: base + InsertionGate::wires_element_to_insert().start }, e).unwrap();
    for (i, &v) in list.iter().enumerate() {
        w.try_set(Target { index: base + InsertionGate::wires_list_item(i).start }, v).unwrap();
    }
}

fn read_outputs(w: &Witness, gate: &InsertionGate, base: usize) -> Vec<u64> {
    let mut out = Vec::new();
    for i in 0..gate.vec_size + 1 {
        let range = gate.wires_output_list_item(i);
        out.push(w.try_get(Target { index: base + range.start }).unwrap());
    }
    out
}

#[test]
fn insert_in_the_middle() {
    let (b, gate, base) = build_row(4);
    let mut w = Witness::new(b.num_targets);
    set_inputs(&mut w, base, 2, 99, &[10, 20, 30, 40]);
    b.generate_witness(&mut w).unwrap();
    b.check_constraints(&w).unwrap();
    assert_eq!(read_outputs(&w, &gate, base), vec![10, 20, 99, 30, 40]);
}

#[test]
fn insert_at_the_front() {
    let (b, gate, base) = build_row(3);
    let mut w = Witness::new(b.num_targets);
    set_inputs(&mut w, base, 0, 7, &[1, 2, 3]);
    b.generate_witness(&mut w).unwrap();
    b.check_constraints(&w).unwrap();
    assert_eq!(read_outputs(&w, &gate, base), vec![7, 1, 2, 3]);
}

#[test]
fn insert_at_the_end_appends() {
    // The index may equal the list length: the element is appended, handled
    // by the final round of the per-round rules.
    let (b, gate, base) = build_row(3);
    let mut w = Witness::new(b.num_targets);
    set_inputs(&mut w, base, 3, 55, &[1, 2, 3]);
    b.generate_witness(&mut w).unwrap();
    b.check_constraints(&w).unwrap();
    assert_eq!(read_outputs(&w, &gate, base), vec![1, 2, 3, 55]);
}

#[test]
fn index_out_of_range_is_fatal() {
    let (b, _gate, base) = build_row(3);
    let mut w = Witness::new(b.num_targets);
    set_inputs(&mut w, base, 4, 55, &[1, 2, 3]);
    assert_eq!(b.generate_witness(&mut w).unwrap_err(), CircuitError::IndexOutOfRange);
}

#[test]
fn gate_shape_metadata() {
    let gate = InsertionGate::new(4);
    assert_eq!(gate.num_wires(), 8 * 4 + 9);
    assert_eq!(gate.num_constants(), 0);
    assert_eq!(gate.degree(), 2);
    assert_eq!(gate.num_constraints(), 7 * 5 + 1);
    assert_eq!(InsertionGate::wires_insertion_index(), 0);
    assert_eq!(InsertionGate::wires_element_to_insert(), 1..2);
    assert_eq!(InsertionGate::wires_list_item(2), 4..5);
    assert_eq!(gate.start_of_output_wires(), 6);
    assert_eq!(gate.wires_output_list_item(4), 10..11);
    assert_eq!(gate.start_of_intermediate_wires(), 11);
    assert_eq!(InsertionGate::intermediate_wires_per_round(), 6);
    assert_eq!(gate.insert_here_for_round_r(1), 17..18);
    assert_eq!(gate.equality_dummy_for_round_r(1), 18..19);
    assert_eq!(gate.new_item_for_round_r(1), 19..20);
    assert_eq!(gate.new_item_plus_old_item_for_round_r(1), 20..21);
    assert_eq!(gate.already_inserted_for_round_r(1), 21..22);
    assert_eq!(gate.not_already_inserted_for_round_r(1), 22..23);
}

#[test]
fn gate_ids_are_stable_and_distinct() {
    let g4 = InsertionGate::new(4);
    let g12 = InsertionGate::new(12);
    assert_eq!(g4.id(), "InsertionGate vec_size=4 ext_degree=2");
    assert_eq!(g12.id(), "InsertionGate vec_size=12 ext_degree=2");
    assert_ne!(g4.id(), g12.id());
}

#[test]
fn tampered_output_fails_the_self_check() {
    let (b, gate, base) = build_row(2);
    let mut w = Witness::new(b.num_targets);
    set_inputs(&mut w, base, 1, 9, &[4, 5]);
    b.generate_witness(&mut w).unwrap();
    b.check_constraints(&w).unwrap();
    // Rebuild the fully assigned witness, corrupting one output wire.
    let tampered = base + gate.wires_output_list_item(1).start;
    let mut w2 = Witness::new(b.num_targets);
    for i in 0..b.num_targets {
        let t = Target { index: i };
        let v = w.try_get(t).unwrap();
        w2.try_set(t, if i == tampered { v + 1 } else { v }).unwrap();
    }
    assert_eq!(b.check_constraints(&w2).unwrap_err(), CircuitError::UnsatisfiedConstraint);
}

#[test]
fn overwriting_a_generated_wire_is_a_double_assignment() {
    let (b, gate, base) = build_row(2);
    let mut w2 = Witness::new(b.num_targets);
    set_inputs(&mut w2, base, 1, 9, &[4, 5]);
    let out1 = base + gate.wires_output_list_item(1).start;
    w2.try_set(Target { index: out1 }, 1234).unwrap();
    // The generator refuses to overwrite the already-assigned wire.
    assert_eq!(b.generate_witness(&mut w2).unwrap_err(), CircuitError::DoubleAssignment);
}

#[test]
fn double_assignment_and_unassigned_reads() {
    let mut w = Witness::new(2);
    let t = Target { index: 0 };
    assert_eq!(w.try_get(t).unwrap_err(), CircuitError::UnassignedTarget);
    w.try_set(t, 5).unwrap();
    assert_eq!(w.try_get(t).unwrap(), 5);
    assert_eq!(w.try_set(t, 5).unwrap_err(), CircuitError::DoubleAssignment);
    assert_eq!(
        w.try_set(Target { index: 7 }, 5).unwrap_err(),
        CircuitError::TargetOutOfBounds
    );
    assert_eq!(
        w.try_set(Target { index: 1 }, u64::MAX).unwrap_err(),
        CircuitError::ValueOutOfRange
    );
}

#[test]
fn generator_dependencies_are_the_input_wires() {
    let mut b = CircuitBuilder::new();
    let gate = InsertionGate::new(2);
    let base = b.add_insertion_row(&gate);
    let gens = gate.generators(base);
    assert_eq!(gens.len(), 1);
    let deps = gens[0].dependencies();
    let expected: Vec<Target> = (0..4).map(|j| Target { index: base + j }).collect();
    assert_eq!(deps.len(), expected.len());
    for (d, e) in deps.iter().zip(expected.iter()) {
        assert_eq!(d.index, e.index);
    }
}

#[test]
fn recursive_evaluation_matches_native() {
    let vec_size = 3;
    let gate = InsertionGate::new(vec_size);
    let nw = gate.num_wires();
    // Produce a populated row with the ordinary generator.
    let mut rb = CircuitBuilder::new();
    let base = rb.add_insertion_row(&gate);
    let mut rw = Witness::new(rb.num_targets);
    set_inputs(&mut rw, base, 1, 9, &[4, 5, 6]);
    rb.generate_witness(&mut rw).unwrap();
    let row_values: Vec<u64> =
        (0..nw).map(|j| rw.try_get(Target { index: base + j }).unwrap()).collect();
    // Tamper one output so some constraints are non-zero as well.
    let mut bad_values = row_values.clone();
    let out1 = gate.wires_output_list_item(1).start;
    bad_values[out1] += 1;
    for values in [row_values, bad_values] {
        // Re-express the constraints in-circuit over fresh wire targets.
        let mut b = CircuitBuilder::new();
        let mut wires = Vec::new();
        for _ in 0..nw {
            wires.push(b.add_virtual_target());
        }
        let cons = gate.eval_unfiltered_recursively(&mut b, &wires).unwrap();
        assert_eq!(cons.len(), gate.num_constraints());
        let mut w = Witness::new(b.num_targets);
        for j in 0..nw {
            w.try_set(wires[j], values[j]).unwrap();
        }
        b.generate_witness(&mut w).unwrap();
        b.check_constraints(&w).unwrap();
        // The native evaluation of the same wire values, coordinate for
        // coordinate: embedded base values keep a zero second coordinate.
        let vars: Vec<Ext> = values.iter().map(|&v| Ext { c0: v, c1: 0 }).collect();
        let native = gate.eval_unfiltered(&vars);
        assert_eq!(native.len(), cons.len());
        for (t, n) in cons.iter().zip(native.iter()) {
            assert_eq!(w.try_get(*t).unwrap(), n.c0);
            assert_eq!(n.c1, 0);
        }
    }
}

#[test]
fn randomized_insertion_generator_constraint_agreement() {
    let mut state: u64 = 0xDEAD_BEEF_CAFE_F00D;
    let mut next = move || {
        state = state.wrapping_mul(6364136223846793005).wrapping_add(1442695040888963407);
        state >> 16
    };
    for _trial in 0..100 {
        let vec_size = 1 + (next() as usize % 6);
        let k = next() % (vec_size as u64 + 1);
        let e = next() & 0xFFFF_FFFF;
        let list: Vec<u64> = (0..vec_size).map(|_| next() & 0xFFFF_FFFF).collect();
        let (b, gate, base) = build_row(vec_size);
        let mut w = Witness::new(b.num_targets);
        set_inputs(&mut w, base, k, e, &list);
        b.generate_witness(&mut w).unwrap();
        // The populated row satisfies every one of its constraints.
        b.check_constraints(&w).unwrap();
        let mut expected = list.clone();
        expected.insert(k as usize, e);
        assert_eq!(read_outputs(&w, &gate, base), expected);
    }
}
