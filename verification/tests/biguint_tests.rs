use arith_circuit::biguint::BigUintTarget;
use arith_circuit::circuit::CircuitBuilder;
use arith_circuit::witness::Witness;
use arith_circuit::CircuitError;

fn set_limbs(w: &mut Witness, t: &BigUintTarget, limbs: &[u64]) {
    assert_eq!(t.num_limbs(), limbs.len());
    for i in 0..limbs.len() {
        w.try_set(t.get_limb(i).0, limbs[i]).unwrap();
    }
}

fn read_limbs(w: &Witness, t: &BigUintTarget) -> Vec<u64> {
    let mut out = Vec::new();
    for i in 0..t.num_limbs() {
        out.push(w.try_get(t.get_limb(i).0).unwrap());
    }
    out
}

fn decode(limbs: &[u64]) -> u128 {
    let mut v: u128 = 0;
    for i in (0..limbs.len()).rev() {
        v = (v << 32) + limbs[i] as u128;
    }
    v
}

#[test]
fn test_biguint_add() {}

#[test]
fn add_two_limbs_with_carry() {
    let mut b = CircuitBuilder::new();
    let x = b.add_virtual_biguint_target(2);
    let y = b.add_virtual_biguint_target(2);
    let sum = b.add_biguint(&x, &y).unwrap();
    assert_eq!(sum.num_limbs(), 3);
    let mut w = Witness::new(b.num_targets);
    set_limbs(&mut w, &x, &[0xFFFF_FFFF, 0xFFFF_FFFF]);
    set_limbs(&mut w, &y, &[1, 0]);
    b.generate_witness(&mut w).unwrap();
    b.check_constraints(&w).unwrap();
    let s = read_limbs(&w, &sum);
    assert_eq!(decode(&s), 0xFFFF_FFFF_FFFF_FFFFu128 + 1);
    assert_eq!(s[2], 1);
    assert!(s[2] <= 1);
}

#[test]
fn add_no_carry() {
    let mut b = CircuitBuilder::new();
    let x = b.add_virtual_biguint_target(1);
    let y = b.add_virtual_biguint_target(1);
    let sum = b.add_biguint(&x, &y).unwrap();
    let mut w = Witness::new(b.num_targets);
    set_limbs(&mut w, &x, &[10]);
    set_limbs(&mut w, &y, &[32]);
    b.generate_witness(&mut w).unwrap();
    b.check_constraints(&w).unwrap();
    assert_eq!(decode(&read_limbs(&w, &sum)), 42);
}

#[test]
fn add_shape_mismatch_is_rejected() {
    let mut b = CircuitBuilder::new();
    let x = b.add_virtual_biguint_target(2);
    let y = b.add_virtual_biguint_target(3);
    assert_eq!(b.add_biguint(&x, &y).unwrap_err(), CircuitError::ShapeMismatch);
    assert_eq!(b.sub_biguint(&x, &y).unwrap_err(), CircuitError::ShapeMismatch);
    assert_eq!(b.mul_biguint(&x, &y).unwrap_err(), CircuitError::ShapeMismatch);
}

#[test]
fn sub_exact_and_borrow_asserted() {
    let mut b = CircuitBuilder::new();
    let x = b.add_virtual_biguint_target(2);
    let y = b.add_virtual_biguint_target(2);
    let diff = b.sub_biguint(&x, &y).unwrap();
    let mut w = Witness::new(b.num_targets);
    set_limbs(&mut w, &x, &[5, 7]);
    set_limbs(&mut w, &y, &[9, 2]);
    b.generate_witness(&mut w).unwrap();
    b.check_constraints(&w).unwrap();
    let a_val = decode(&[5, 7]);
    let b_val = decode(&[9, 2]);
    assert_eq!(decode(&read_limbs(&w, &diff)), a_val - b_val);
}

#[test]
fn sub_underflow_leaves_constraints_unsatisfied() {
    let mut b = CircuitBuilder::new();
    let x = b.add_virtual_biguint_target(1);
    let y = b.add_virtual_biguint_target(1);
    let _diff = b.sub_biguint(&x, &y).unwrap();
    let mut w = Witness::new(b.num_targets);
    set_limbs(&mut w, &x, &[3]);
    set_limbs(&mut w, &y, &[5]);
    b.generate_witness(&mut w).unwrap();
    // The final borrow is 1, and the asserted borrow-zero constraint fails.
    assert_eq!(b.check_constraints(&w).unwrap_err(), CircuitError::UnsatisfiedConstraint);
}

#[test]
fn mul_exact_double_width() {
    let mut b = CircuitBuilder::new();
    let x = b.add_virtual_biguint_target(2);
    let y = b.add_virtual_biguint_target(2);
    let prod = b.mul_biguint(&x, &y).unwrap();
    assert_eq!(prod.num_limbs(), 4);
    let mut w = Witness::new(b.num_targets);
    set_limbs(&mut w, &x, &[0xDEAD_BEEF, 0x1234_5678]);
    set_limbs(&mut w, &y, &[0xFFFF_FFFF, 0x0BAD_F00D]);
    b.generate_witness(&mut w).unwrap();
    b.check_constraints(&w).unwrap();
    let expected = decode(&[0xDEAD_BEEF, 0x1234_5678]) * decode(&[0xFFFF_FFFF, 0x0BAD_F00D]);
    assert_eq!(decode(&read_limbs(&w, &prod)), expected);
}

#[test]
fn div_rem_matches_native_division() {
    let mut b = CircuitBuilder::new();
    let x = b.add_virtual_biguint_target(2);
    let y = b.add_virtual_biguint_target(2);
    let (d, r) = b.div_rem_biguint(&x, &y).unwrap();
    let mut w = Witness::new(b.num_targets);
    set_limbs(&mut w, &x, &[0x1111_2222, 0x3333_4444]);
    set_limbs(&mut w, &y, &[0x0000_FFFF, 0]);
    b.generate_witness(&mut w).unwrap();
    b.check_constraints(&w).unwrap();
    let a_val = decode(&[0x1111_2222, 0x3333_4444]);
    let b_val = decode(&[0x0000_FFFF, 0]);
    assert_eq!(decode(&read_limbs(&w, &d)), a_val / b_val);
    assert_eq!(decode(&read_limbs(&w, &r)), a_val % b_val);
}

#[test]
fn div_rem_divisor_with_fewer_limbs() {
    let mut b = CircuitBuilder::new();
    let x = b.add_virtual_biguint_target(3);
    let y = b.add_virtual_biguint_target(1);
    let (d, r) = b.div_rem_biguint(&x, &y).unwrap();
    let mut w = Witness::new(b.num_targets);
    set_limbs(&mut w, &x, &[0xAAAA_BBBB, 0xCCCC_DDDD, 0x9999]);
    set_limbs(&mut w, &y, &[12345]);
    b.generate_witness(&mut w).unwrap();
    b.check_constraints(&w).unwrap();
    let a_val = decode(&[0xAAAA_BBBB, 0xCCCC_DDDD, 0x9999]);
    assert_eq!(decode(&read_limbs(&w, &d)), a_val / 12345);
    assert_eq!(decode(&read_limbs(&w, &r)), a_val % 12345);
}

#[test]
fn div_rem_by_zero_fails_at_generation() {
    let mut b = CircuitBuilder::new();
    let x = b.add_virtual_biguint_target(1);
    let y = b.add_virtual_biguint_target(1);
    let _ = b.div_rem_biguint(&x, &y).unwrap();
    let mut w = Witness::new(b.num_targets);
    set_limbs(&mut w, &x, &[77]);
    set_limbs(&mut w, &y, &[0]);
    assert_eq!(b.generate_witness(&mut w).unwrap_err(), CircuitError::ZeroDivisor);
}

#[test]
fn connect_satisfiable_iff_equal_values() {
    // Equal values at unequal limb counts: excess high limbs zero.
    let mut b = CircuitBuilder::new();
    let x = b.add_virtual_biguint_target(1);
    let y = b.add_virtual_biguint_target(3);
    b.connect_biguint(&x, &y);
    let mut w = Witness::new(b.num_targets);
    set_limbs(&mut w, &x, &[42]);
    set_limbs(&mut w, &y, &[42, 0, 0]);
    b.generate_witness(&mut w).unwrap();
    b.check_constraints(&w).unwrap();

    // A non-zero excess high limb makes the constraints unsatisfiable.
    let mut b2 = CircuitBuilder::new();
    let x2 = b2.add_virtual_biguint_target(1);
    let y2 = b2.add_virtual_biguint_target(3);
    b2.connect_biguint(&x2, &y2);
    let mut w2 = Witness::new(b2.num_targets);
    set_limbs(&mut w2, &x2, &[42]);
    set_limbs(&mut w2, &y2, &[42, 0, 1]);
    b2.generate_witness(&mut w2).unwrap();
    assert_eq!(b2.check_constraints(&w2).unwrap_err(), CircuitError::UnsatisfiedConstraint);
}

#[test]
fn cmp_le_across_shapes_and_extremes() {
    let cases: &[(&[u64], &[u64], bool)] = &[
        (&[5], &[5], true),
        (&[6], &[5], false),
        (&[0, 1], &[0xFFFF_FFFF], false),
        (&[0xFFFF_FFFF], &[0, 1], true),
        (&[0], &[0], true),
        (&[0xFFFF_FFFF, 0xFFFF_FFFF], &[0xFFFF_FFFF, 0xFFFF_FFFF], true),
        (&[0xFFFF_FFFE, 0xFFFF_FFFF], &[0xFFFF_FFFF, 0xFFFF_FFFF], true),
        (&[0xFFFF_FFFF, 0xFFFF_FFFF], &[0xFFFF_FFFE, 0xFFFF_FFFF], false),
        (&[7, 0, 0], &[8], true),
    ];
    for (av, bv, expect_le) in cases {
        let mut b = CircuitBuilder::new();
        let x = b.add_virtual_biguint_target(av.len());
        let y = b.add_virtual_biguint_target(bv.len());
        let le = b.cmp_biguint(&x, &y);
        let mut w = Witness::new(b.num_targets);
        set_limbs(&mut w, &x, av);
        set_limbs(&mut w, &y, bv);
        b.generate_witness(&mut w).unwrap();
        b.check_constraints(&w).unwrap();
        let got = w.try_get(le.target).unwrap();
        assert_eq!(got == 1, *expect_le, "cmp of {:?} <= {:?}", av, bv);
    }
}

#[test]
fn missing_dependency_is_detected() {
    let mut b = CircuitBuilder::new();
    let x = b.add_virtual_biguint_target(1);
    let y = b.add_virtual_biguint_target(1);
    let _sum = b.add_biguint(&x, &y).unwrap();
    let mut w = Witness::new(b.num_targets);
    // The inputs never receive values, so the adder row never becomes ready.
    set_limbs(&mut w, &x, &[1]);
    assert_eq!(b.generate_witness(&mut w).unwrap_err(), CircuitError::MissingDependency);
}

#[test]
fn randomized_biguint_generator_constraint_agreement() {
    // A small linear congruential generator for reproducible trials.
    let mut state: u64 = 0x1234_5678_9ABC_DEF0;
    let mut next = move || {
        state = state.wrapping_mul(6364136223846793005).wrapping_add(1442695040888963407);
        state >> 16
    };
    for _trial in 0..100 {
        let n = 1 + (next() as usize % 3);
        let mut av = Vec::new();
        let mut bv = Vec::new();
        for _ in 0..n {
            av.push(next() & 0xFFFF_FFFF);
            bv.push(next() & 0xFFFF_FFFF);
        }
        if decode(&bv) == 0 {
            bv[0] = 1;
        }
        let mut b = CircuitBuilder::new();
        let x = b.add_virtual_biguint_target(n);
        let y = b.add_virtual_biguint_target(n);
        let sum = b.add_biguint(&x, &y).unwrap();
        let prod = b.mul_biguint(&x, &y).unwrap();
        let (d, r) = b.div_rem_biguint(&x, &y).unwrap();
        let le = b.cmp_biguint(&x, &y);
        let mut w = Witness::new(b.num_targets);
        set_limbs(&mut w, &x, &av);
        set_limbs(&mut w, &y, &bv);
        b.generate_witness(&mut w).unwrap();
        b.check_constraints(&w).unwrap();
        let a_val = decode(&av);
        let b_val = decode(&bv);
        assert_eq!(decode(&read_limbs(&w, &sum)), a_val + b_val);
        assert_eq!(decode(&read_limbs(&w, &prod)), a_val * b_val);
        assert_eq!(decode(&read_limbs(&w, &d)), a_val / b_val);
        assert_eq!(decode(&read_limbs(&w, &r)), a_val % b_val);
        assert_eq!(w.try_get(le.target).unwrap() == 1, a_val <= b_val);
    }
}
