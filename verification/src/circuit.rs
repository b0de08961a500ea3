//! The circuit builder and the generator/witness protocol. Construction is
//! purely structural: each gadget call allocates fresh targets, records
//! constraints (a closed registry of row kinds, keyed by their variant) and
//! registers generators. Witness generation then runs generators in
//! dependency order, and the self-check re-evaluates every constraint over
//! the populated store.

use vstd::prelude::*;
use crate::field::{fp, fadd, fsub, fmul, f_add, f_sub, f_mul, is_felt, FIELD_ORDER};
use crate::target::{Target, U32Target, BoolTarget};
use crate::witness::{Witness, tv, tset, wit_wf, wit_extends, lemma_extends_preserves,
    lemma_extends_trans};
use crate::insertion::{InsertionGate, insertion_row_holds, gate_wf, gate_num_wires,
    run_insertion_generator, wire, idx_insertion_index, idx_output_list_item, inserted_value,
    row_vars, round_constraint, views_of};
use crate::extension::{Ext, ext_wf, ext_view, embed, esub, ext_zero_view, ext_from_base};
use crate::CircuitError;

verus! {

/// Each limb of a multi-precision integer is a value below this base.
pub const LIMB_BASE: u64 = 0x1_0000_0000;

/// Value of a limb target, as an integer.
pub open spec fn u32v(w: Seq<Option<u64>>, t: U32Target) -> int {
    tv(w, t.0)
}

/// The limb target is assigned and holds a value below the limb base.
pub open spec fn u32_ranged(w: Seq<Option<u64>>, t: U32Target) -> bool {
    tset(w, t.0) && 0 <= tv(w, t.0) < LIMB_BASE
}

pub open spec fn limbs_ranged(w: Seq<Option<u64>>, ts: Seq<U32Target>) -> bool {
    forall|i: int| 0 <= i < ts.len() ==> u32_ranged(w, #[trigger] ts[i])
}

/// The non-negative integer denoted by a little-endian limb list.
pub open spec fn decoded(w: Seq<Option<u64>>, ts: Seq<U32Target>) -> int
    decreases ts.len(),
{
    if ts.len() == 0 {
        0
    } else {
        u32v(w, ts[0]) + LIMB_BASE * decoded(w, ts.drop_first())
    }
}

/// The non-negative integer denoted by a little-endian list of limb values.
pub open spec fn dec_u64(vs: Seq<u64>) -> int
    decreases vs.len(),
{
    if vs.len() == 0 {
        0
    } else {
        vs[0] + LIMB_BASE * dec_u64(vs.drop_first())
    }
}

/// Sum of the values of a list of limb targets.
pub open spec fn sum_u32(w: Seq<Option<u64>>, ts: Seq<U32Target>) -> int
    decreases ts.len(),
{
    if ts.len() == 0 {
        0
    } else {
        u32v(w, ts[0]) + sum_u32(w, ts.drop_first())
    }
}

/// Powers of the limb base.
pub open spec fn pow_b(n: nat) -> int
    decreases n,
{
    if n == 0 {
        1
    } else {
        LIMB_BASE * pow_b((n - 1) as nat)
    }
}

/// Appending a limb adds its value scaled by the base power of the old length.
pub proof fn lemma_decoded_snoc(w: Seq<Option<u64>>, ts: Seq<U32Target>, t: U32Target)
    ensures
        decoded(w, ts.push(t)) == decoded(w, ts) + pow_b(ts.len()) * u32v(w, t),
    decreases ts.len(),
{
    if ts.len() == 0 {
        assert(ts.push(t)[0] == t);
        assert(ts.push(t).drop_first() =~= Seq::<U32Target>::empty());
        assert(decoded(w, ts.push(t).drop_first()) == 0);
        assert(LIMB_BASE * decoded(w, ts.push(t).drop_first()) == 0);
        assert(pow_b(0) == 1);
        assert(1 * u32v(w, t) == u32v(w, t));
    } else {
        assert(ts.push(t).drop_first() =~= ts.drop_first().push(t));
        lemma_decoded_snoc(w, ts.drop_first(), t);
        assert(decoded(w, ts.push(t))
            == u32v(w, ts[0]) + LIMB_BASE * (decoded(w, ts.drop_first())
                + pow_b(ts.drop_first().len()) * u32v(w, t)));
        assert(LIMB_BASE * (decoded(w, ts.drop_first()) + pow_b(ts.drop_first().len()) * u32v(w, t))
            == LIMB_BASE * decoded(w, ts.drop_first())
                + (LIMB_BASE * pow_b(ts.drop_first().len())) * u32v(w, t)) by (nonlinear_arith);
    }
}

/// A ranged limb list denotes a value in `[0, pow_b(len))`.
pub proof fn lemma_decoded_bound(w: Seq<Option<u64>>, ts: Seq<U32Target>)
    requires
        limbs_ranged(w, ts),
    ensures
        0 <= decoded(w, ts) < pow_b(ts.len()),
    decreases ts.len(),
{
    if ts.len() == 0 {
    } else {
        assert(limbs_ranged(w, ts.drop_first())) by {
            assert forall|i: int| 0 <= i < ts.drop_first().len()
                implies u32_ranged(w, #[trigger] ts.drop_first()[i]) by {
                assert(ts.drop_first()[i] == ts[i + 1]);
            }
        }
        lemma_decoded_bound(w, ts.drop_first());
        assert(u32_ranged(w, ts[0]));
        let rest = decoded(w, ts.drop_first());
        let pb = pow_b(ts.drop_first().len());
        assert(LIMB_BASE * rest <= LIMB_BASE * (pb - 1)) by (nonlinear_arith)
            requires rest <= pb - 1, LIMB_BASE > 0;
        assert(LIMB_BASE * rest >= 0) by (nonlinear_arith)
            requires rest >= 0;
    }
}

/// Two limb lists with pointwise equal values denote the same integer.
pub proof fn lemma_decoded_eq_vals(w: Seq<Option<u64>>, ts: Seq<U32Target>, vs: Seq<u64>)
    requires
        ts.len() == vs.len(),
        forall|i: int| 0 <= i < ts.len() ==> u32v(w, #[trigger] ts[i]) == vs[i],
    ensures
        decoded(w, ts) == dec_u64(vs),
    decreases ts.len(),
{
    if ts.len() > 0 {
        assert forall|i: int| 0 <= i < ts.drop_first().len()
            implies u32v(w, #[trigger] ts.drop_first()[i]) == vs.drop_first()[i] by {
            assert(ts.drop_first()[i] == ts[i + 1]);
            assert(vs.drop_first()[i] == vs[i + 1]);
        }
        lemma_decoded_eq_vals(w, ts.drop_first(), vs.drop_first());
    }
}

/// A limb list whose targets hold the digits of `ds` (zero beyond `ds`'s
/// length) denotes the same integer as `ds`.
pub proof fn lemma_decoded_from_digits(w: Seq<Option<u64>>, ts: Seq<U32Target>, ds: Seq<u64>)
    requires
        ds.len() <= ts.len(),
        forall|i: int| 0 <= i < ts.len()
            ==> u32v(w, #[trigger] ts[i]) == if i < ds.len() { ds[i] as int } else { 0int },
    ensures
        decoded(w, ts) == dec_u64(ds),
    decreases ts.len(),
{
    if ts.len() == 0 {
    } else if ds.len() == 0 {
        assert forall|i: int| 0 <= i < ts.drop_first().len()
            implies u32v(w, #[trigger] ts.drop_first()[i]) == 0 by {
            assert(ts.drop_first()[i] == ts[i + 1]);
        }
        lemma_decoded_from_digits(w, ts.drop_first(), ds);
    } else {
        assert forall|i: int| 0 <= i < ts.drop_first().len()
            implies u32v(w, #[trigger] ts.drop_first()[i])
                == if i < ds.drop_first().len() { ds.drop_first()[i] as int } else { 0int } by {
            assert(ts.drop_first()[i] == ts[i + 1]);
            if i < ds.drop_first().len() {
                assert(ds.drop_first()[i] == ds[i + 1]);
            }
        }
        lemma_decoded_from_digits(w, ts.drop_first(), ds.drop_first());
    }
}

/// The value of a limb list is stable under extension of the witness, once
/// all its limbs are assigned.
pub proof fn lemma_decoded_stable(
    w2: Seq<Option<u64>>,
    w1: Seq<Option<u64>>,
    ts: Seq<U32Target>,
)
    requires
        wit_extends(w2, w1),
        forall|i: int| 0 <= i < ts.len() ==> tset(w1, (#[trigger] ts[i]).0),
    ensures
        decoded(w2, ts) == decoded(w1, ts),
        sum_u32(w2, ts) == sum_u32(w1, ts),
    decreases ts.len(),
{
    if ts.len() > 0 {
        lemma_extends_preserves(w2, w1, ts[0].0);
        assert forall|i: int| 0 <= i < ts.drop_first().len()
            implies tset(w1, (#[trigger] ts.drop_first()[i]).0) by {
            assert(ts.drop_first()[i] == ts[i + 1]);
        }
        lemma_decoded_stable(w2, w1, ts.drop_first());
    }
}

/// The closed registry of constraint rows. Each variant is one row kind: its
/// wire shape is its fields, its satisfaction condition is
/// `constraint_holds`, its generator (where it has one) is the matching
/// `Generator` variant.
#[derive(Clone, Debug)]
pub enum Constraint {
    /// The target holds a value below the limb base.
    U32Range { t: U32Target },
    /// The target holds the given constant.
    ConstantVal { t: Target, value: u64 },
    /// The two targets hold equal values.
    ConnectVals { a: Target, b: Target },
    AssertZero { t: Target },
    AssertOne { t: Target },
    /// `a + b + c == out + base * carry`, all limbs ranged.
    AddThreeU32 { a: U32Target, b: U32Target, c: U32Target, out: U32Target, carry: U32Target },
    /// `out == a - b - borrow + base * borrow_out`, borrows boolean.
    SubU32 { a: U32Target, b: U32Target, borrow: U32Target, out: U32Target, borrow_out: U32Target },
    /// `a * b == out_lo + base * out_hi`.
    MulU32 { a: U32Target, b: U32Target, out_lo: U32Target, out_hi: U32Target },
    /// `sum(inputs) == out + base * carry`.
    AddManyU32 { inputs: Vec<U32Target>, out: U32Target, carry: U32Target },
    /// `out == 1` exactly when the first limb list denotes a value less than
    /// or equal to the second's (equal lengths).
    ListLe { a: Vec<U32Target>, b: Vec<U32Target>, out: BoolTarget },
    /// Base-field arithmetic over single wires: `out == op(a, b)` in the
    /// field, all three canonical. These rows carry in-circuit re-expressed
    /// constraint expressions for recursive composition.
    FieldArith { op: ArithOp, a: Target, b: Target, out: Target },
    /// One insertion-gate row placed at wire offset `base`.
    InsertionRow { vec_size: usize, base: usize },
}

/// The base-field operation of a `FieldArith` row.
#[derive(Clone, Copy, Debug, PartialEq, Eq, Structural)]
pub enum ArithOp {
    AddMod,
    SubMod,
    MulMod,
}

/// The field value an arithmetic row computes.
pub open spec fn arith_value(op: ArithOp, x: int, y: int) -> int {
    match op {
        ArithOp::AddMod => fadd(x, y),
        ArithOp::SubMod => fsub(x, y),
        ArithOp::MulMod => fmul(x, y),
    }
}

pub open spec fn constraint_holds(c: Constraint, w: Seq<Option<u64>>) -> bool {
    match c {
        Constraint::U32Range { t } => u32_ranged(w, t),
        Constraint::ConstantVal { t, value } => tset(w, t) && tv(w, t) == value as int,
        Constraint::ConnectVals { a, b } => tset(w, a) && tset(w, b) && tv(w, a) == tv(w, b),
        Constraint::AssertZero { t } => tset(w, t) && tv(w, t) == 0,
        Constraint::AssertOne { t } => tset(w, t) && tv(w, t) == 1,
        Constraint::AddThreeU32 { a, b, c, out, carry } => {
            &&& u32_ranged(w, a) && u32_ranged(w, b) && u32_ranged(w, c)
            &&& u32_ranged(w, out) && tset(w, carry.0)
            &&& 0 <= tv(w, carry.0) <= 2
            &&& u32v(w, a) + u32v(w, b) + u32v(w, c) == u32v(w, out) + LIMB_BASE * tv(w, carry.0)
        },
        Constraint::SubU32 { a, b, borrow, out, borrow_out } => {
            &&& u32_ranged(w, a) && u32_ranged(w, b) && u32_ranged(w, out)
            &&& tset(w, borrow.0) && 0 <= tv(w, borrow.0) <= 1
            &&& tset(w, borrow_out.0) && 0 <= tv(w, borrow_out.0) <= 1
            &&& u32v(w, out) == u32v(w, a) - u32v(w, b) - tv(w, borrow.0)
                + LIMB_BASE * tv(w, borrow_out.0)
        },
        Constraint::MulU32 { a, b, out_lo, out_hi } => {
            &&& u32_ranged(w, a) && u32_ranged(w, b)
            &&& u32_ranged(w, out_lo) && u32_ranged(w, out_hi)
            &&& u32v(w, a) * u32v(w, b) == u32v(w, out_lo) + LIMB_BASE * u32v(w, out_hi)
        },
        Constraint::AddManyU32 { inputs, out, carry } => {
            &&& limbs_ranged(w, inputs@)
            &&& u32_ranged(w, out) && u32_ranged(w, carry)
            &&& sum_u32(w, inputs@) == u32v(w, out) + LIMB_BASE * u32v(w, carry)
        },
        Constraint::ListLe { a, b, out } => {
            &&& a@.len() == b@.len()
            &&& limbs_ranged(w, a@) && limbs_ranged(w, b@)
            &&& tset(w, out.target)
            &&& tv(w, out.target) == if decoded(w, a@) <= decoded(w, b@) { 1int } else { 0int }
        },
        Constraint::FieldArith { op, a, b, out } => {
            &&& tset(w, a) && tset(w, b) && tset(w, out)
            &&& tv(w, a) < fp() && tv(w, b) < fp() && tv(w, out) < fp()
            &&& tv(w, out) == arith_value(op, tv(w, a), tv(w, b))
        },
        Constraint::InsertionRow { vec_size, base } => {
            &&& vec_size <= crate::insertion::MAX_VEC_SIZE
            &&& base + gate_num_wires(vec_size as int) <= usize::MAX
            &&& insertion_row_holds(vec_size as int, base as int, w)
        },
    }
}

/// All constraints from position `start` on hold in `w`.
pub open spec fn constraints_hold_from(cs: Seq<Constraint>, start: int, w: Seq<Option<u64>>) -> bool {
    forall|k: int| start <= k < cs.len() ==> constraint_holds(#[trigger] cs[k], w)
}

/// A satisfied constraint stays satisfied when the witness is extended.
pub proof fn lemma_constraint_stable(c: Constraint, w1: Seq<Option<u64>>, w2: Seq<Option<u64>>)
    requires
        wit_extends(w2, w1),
        constraint_holds(c, w1),
    ensures
        constraint_holds(c, w2),
{
    match c {
        Constraint::U32Range { t } => {
            lemma_extends_preserves(w2, w1, t.0);
        },
        Constraint::ConstantVal { t, value } => {
            lemma_extends_preserves(w2, w1, t);
        },
        Constraint::ConnectVals { a, b } => {
            lemma_extends_preserves(w2, w1, a);
            lemma_extends_preserves(w2, w1, b);
        },
        Constraint::AssertZero { t } => {
            lemma_extends_preserves(w2, w1, t);
        },
        Constraint::AssertOne { t } => {
            lemma_extends_preserves(w2, w1, t);
        },
        Constraint::AddThreeU32 { a, b, c, out, carry } => {
            lemma_extends_preserves(w2, w1, a.0);
            lemma_extends_preserves(w2, w1, b.0);
            lemma_extends_preserves(w2, w1, c.0);
            lemma_extends_preserves(w2, w1, out.0);
            lemma_extends_preserves(w2, w1, carry.0);
        },
        Constraint::SubU32 { a, b, borrow, out, borrow_out } => {
            lemma_extends_preserves(w2, w1, a.0);
            lemma_extends_preserves(w2, w1, b.0);
            lemma_extends_preserves(w2, w1, borrow.0);
            lemma_extends_preserves(w2, w1, out.0);
            lemma_extends_preserves(w2, w1, borrow_out.0);
        },
        Constraint::MulU32 { a, b, out_lo, out_hi } => {
            lemma_extends_preserves(w2, w1, a.0);
            lemma_extends_preserves(w2, w1, b.0);
            lemma_extends_preserves(w2, w1, out_lo.0);
            lemma_extends_preserves(w2, w1, out_hi.0);
        },
        Constraint::AddManyU32 { inputs, out, carry } => {
            assert forall|i: int| 0 <= i < inputs@.len()
                implies u32_ranged(w2, #[trigger] inputs@[i]) by {
                lemma_extends_preserves(w2, w1, inputs@[i].0);
            }
            lemma_decoded_stable(w2, w1, inputs@);
            lemma_extends_preserves(w2, w1, out.0);
            lemma_extends_preserves(w2, w1, carry.0);
        },
        Constraint::ListLe { a, b, out } => {
            assert forall|i: int| 0 <= i < a@.len()
                implies u32_ranged(w2, #[trigger] a@[i]) by {
                lemma_extends_preserves(w2, w1, a@[i].0);
            }
            assert forall|i: int| 0 <= i < b@.len()
                implies u32_ranged(w2, #[trigger] b@[i]) by {
                lemma_extends_preserves(w2, w1, b@[i].0);
            }
            lemma_decoded_stable(w2, w1, a@);
            lemma_decoded_stable(w2, w1, b@);
            lemma_extends_preserves(w2, w1, out.target);
        },
        Constraint::FieldArith { op, a, b, out } => {
            lemma_extends_preserves(w2, w1, a);
            lemma_extends_preserves(w2, w1, b);
            lemma_extends_preserves(w2, w1, out);
        },
        Constraint::InsertionRow { vec_size, base } => {
            crate::insertion::lemma_insertion_row_stable(vec_size as int, base as int, w1, w2);
        },
    }
}

/// Compare two equal-length little-endian limb-value lists, most significant
/// limb deciding, as the integers they denote.
pub fn limb_values_le(va: &Vec<u64>, vb: &Vec<u64>) -> (le: bool)
    requires
        va@.len() == vb@.len(),
        forall|i: int| 0 <= i < va@.len() ==> #[trigger] va@[i] < LIMB_BASE,
        forall|i: int| 0 <= i < vb@.len() ==> #[trigger] vb@[i] < LIMB_BASE,
    ensures
        le == (dec_u64(va@) <= dec_u64(vb@)),
{
    let n = va.len();
    let mut le = true;
    let mut i: usize = 0;
    proof {
        assert(va@.take(0) =~= Seq::<u64>::empty());
        assert(vb@.take(0) =~= Seq::<u64>::empty());
    }
    while i < n
        invariant
            n == va@.len(),
            va@.len() == vb@.len(),
            i <= n,
            forall|q: int| 0 <= q < va@.len() ==> #[trigger] va@[q] < LIMB_BASE,
            forall|q: int| 0 <= q < vb@.len() ==> #[trigger] vb@[q] < LIMB_BASE,
            le == (dec_u64(va@.take(i as int)) <= dec_u64(vb@.take(i as int))),
        decreases n - i,
    {
        let xa = va[i];
        let xb = vb[i];
        proof {
            let ii = i as int;
            lemma_dec_u64_snoc(va@.take(ii), xa);
            lemma_dec_u64_snoc(vb@.take(ii), xb);
            assert(va@.take(ii + 1) =~= va@.take(ii).push(xa));
            assert(vb@.take(ii + 1) =~= vb@.take(ii).push(xb));
            assert forall|q: int| 0 <= q < va@.take(ii).len()
                implies #[trigger] va@.take(ii)[q] < LIMB_BASE by {
                assert(va@.take(ii)[q] == va@[q]);
            }
            assert forall|q: int| 0 <= q < vb@.take(ii).len()
                implies #[trigger] vb@.take(ii)[q] < LIMB_BASE by {
                assert(vb@.take(ii)[q] == vb@[q]);
            }
            lemma_dec_u64_bound(va@.take(ii));
            lemma_dec_u64_bound(vb@.take(ii));
            lemma_lex_step(
                dec_u64(va@.take(ii)), dec_u64(vb@.take(ii)),
                xa as int, xb as int, pow_b(i as nat),
            );
        }
        if xa < xb {
            le = true;
        } else if xa > xb {
            le = false;
        }
        i = i + 1;
    }
    proof {
        assert(va@.take(n as int) =~= va@);
        assert(vb@.take(n as int) =~= vb@);
    }
    le
}

/// Appending a limb value adds it scaled by the base power of the old length.
pub proof fn lemma_dec_u64_snoc(vs: Seq<u64>, x: u64)
    ensures
        dec_u64(vs.push(x)) == dec_u64(vs) + pow_b(vs.len()) * x,
    decreases vs.len(),
{
    if vs.len() == 0 {
        assert(vs.push(x)[0] == x);
        assert(vs.push(x).drop_first() =~= Seq::<u64>::empty());
        assert(LIMB_BASE * dec_u64(vs.push(x).drop_first()) == 0);
        assert(1 * (x as int) == x as int);
    } else {
        assert(vs.push(x).drop_first() =~= vs.drop_first().push(x));
        lemma_dec_u64_snoc(vs.drop_first(), x);
        assert(LIMB_BASE * (dec_u64(vs.drop_first()) + pow_b(vs.drop_first().len()) * x)
            == LIMB_BASE * dec_u64(vs.drop_first())
                + (LIMB_BASE * pow_b(vs.drop_first().len())) * x) by (nonlinear_arith);
    }
}

/// A limb-value list denotes a value in `[0, pow_b(len))` when every limb is
/// below the base.
pub proof fn lemma_dec_u64_bound(vs: Seq<u64>)
    requires
        forall|i: int| 0 <= i < vs.len() ==> #[trigger] vs[i] < LIMB_BASE,
    ensures
        0 <= dec_u64(vs) < pow_b(vs.len()),
    decreases vs.len(),
{
    if vs.len() > 0 {
        assert forall|i: int| 0 <= i < vs.drop_first().len()
            implies #[trigger] vs.drop_first()[i] < LIMB_BASE by {
            assert(vs.drop_first()[i] == vs[i + 1]);
        }
        lemma_dec_u64_bound(vs.drop_first());
        let rest = dec_u64(vs.drop_first());
        let pb = pow_b(vs.drop_first().len());
        assert(LIMB_BASE * rest <= LIMB_BASE * (pb - 1)) by (nonlinear_arith)
            requires rest <= pb - 1, LIMB_BASE > 0;
        assert(LIMB_BASE * rest >= 0) by (nonlinear_arith)
            requires rest >= 0;
    }
}

/// One step of most-significant-limb-first comparison: with both low parts
/// below `p`, the higher limb decides, ties fall to the low parts.
pub proof fn lemma_lex_step(x: int, y: int, c: int, d: int, p: int)
    requires
        0 <= x < p,
        0 <= y < p,
        c >= 0,
        d >= 0,
    ensures
        (x + p * c <= y + p * d) == (if c < d { true } else if c > d { false } else { x <= y }),
{
    if c < d {
        assert(x + p * c < y + p * d) by (nonlinear_arith)
            requires 0 <= x < p, 0 <= y, c + 1 <= d;
    } else if c > d {
        assert(y + p * d < x + p * c) by (nonlinear_arith)
            requires 0 <= y < p, 0 <= x, d + 1 <= c;
    }
}

/// The closed registry of generators: one unit of non-deterministic
/// computation each, with declared dependencies (`dependencies`) and a
/// write-once run (`run_generator`).
#[derive(Clone, Debug)]
pub enum Generator {
    ConstantVal { out: Target, value: u64 },
    AddThreeU32 { a: U32Target, b: U32Target, c: U32Target, out: U32Target, carry: U32Target },
    SubU32 { a: U32Target, b: U32Target, borrow: U32Target, out: U32Target, borrow_out: U32Target },
    MulU32 { a: U32Target, b: U32Target, out_lo: U32Target, out_hi: U32Target },
    AddManyU32 { inputs: Vec<U32Target>, out: U32Target, carry: U32Target },
    ListLe { a: Vec<U32Target>, b: Vec<U32Target>, out: BoolTarget },
    /// Computes one base-field operation from its two input wires.
    FieldArith { op: ArithOp, a: Target, b: Target, out: Target },
    /// Reads the concrete values of `a` and `b` and writes the native integer
    /// quotient and remainder into `div` and `rem`.
    BigUintDivRem { a: Vec<U32Target>, b: Vec<U32Target>, div: Vec<U32Target>, rem: Vec<U32Target> },
    InsertionRow { gate: InsertionGate, base: usize },
}

pub open spec fn targets_of(ts: Seq<U32Target>) -> Seq<Target> {
    ts.map_values(|u: U32Target| u.0)
}

/// The targets that must hold values before this generator can run.
pub open spec fn gen_deps(g: Generator) -> Seq<Target> {
    match g {
        Generator::ConstantVal { .. } => Seq::empty(),
        Generator::AddThreeU32 { a, b, c, .. } => seq![a.0, b.0, c.0],
        Generator::SubU32 { a, b, borrow, .. } => seq![a.0, b.0, borrow.0],
        Generator::MulU32 { a, b, .. } => seq![a.0, b.0],
        Generator::AddManyU32 { inputs, .. } => targets_of(inputs@),
        Generator::ListLe { a, b, .. } => targets_of(a@) + targets_of(b@),
        Generator::FieldArith { a, b, .. } => seq![a, b],
        Generator::BigUintDivRem { a, b, .. } => targets_of(a@) + targets_of(b@),
        Generator::InsertionRow { gate, base } => Seq::new(
            (gate.vec_size + 2) as nat,
            |j: int| wire(base as int, j),
        ),
    }
}

/// What a successful run of the generator establishes of the witness.
pub open spec fn gen_post(g: Generator, w: Seq<Option<u64>>) -> bool {
    match g {
        Generator::ConstantVal { out, value } =>
            constraint_holds(Constraint::ConstantVal { t: out, value }, w),
        Generator::AddThreeU32 { a, b, c, out, carry } =>
            constraint_holds(Constraint::AddThreeU32 { a, b, c, out, carry }, w),
        Generator::SubU32 { a, b, borrow, out, borrow_out } =>
            constraint_holds(Constraint::SubU32 { a, b, borrow, out, borrow_out }, w),
        Generator::MulU32 { a, b, out_lo, out_hi } =>
            constraint_holds(Constraint::MulU32 { a, b, out_lo, out_hi }, w),
        Generator::AddManyU32 { inputs, out, carry } =>
            constraint_holds(Constraint::AddManyU32 { inputs, out, carry }, w),
        Generator::ListLe { a, b, out } =>
            constraint_holds(Constraint::ListLe { a, b, out }, w),
        Generator::FieldArith { op, a, b, out } =>
            constraint_holds(Constraint::FieldArith { op, a, b, out }, w),
        Generator::BigUintDivRem { a, b, div, rem } => {
            &&& limbs_ranged(w, a@) && limbs_ranged(w, b@)
            &&& limbs_ranged(w, div@) && limbs_ranged(w, rem@)
            &&& decoded(w, b@) > 0
            &&& decoded(w, div@) == decoded(w, a@) / decoded(w, b@)
            &&& decoded(w, rem@) == decoded(w, a@) % decoded(w, b@)
        },
        Generator::InsertionRow { gate, base } => {
            &&& insertion_row_holds(gate.vec_size as int, base as int, w)
            &&& tv(w, wire(base as int, idx_insertion_index())) <= gate.vec_size as int
            &&& forall|i: int| 0 <= i <= gate.vec_size as int
                    ==> tv(w, #[trigger] wire(base as int, idx_output_list_item(gate.vec_size as int, i)))
                        == inserted_value(w, base as int, gate.vec_size as int, i)
        },
    }
}

/// A successful run's outcome is stable under extension of the witness.
pub proof fn lemma_gen_post_stable(g: Generator, w1: Seq<Option<u64>>, w2: Seq<Option<u64>>)
    requires
        wit_extends(w2, w1),
        gen_post(g, w1),
    ensures
        gen_post(g, w2),
{
    match g {
        Generator::ConstantVal { out, value } => {
            lemma_constraint_stable(Constraint::ConstantVal { t: out, value }, w1, w2);
        },
        Generator::AddThreeU32 { a, b, c, out, carry } => {
            lemma_constraint_stable(Constraint::AddThreeU32 { a, b, c, out, carry }, w1, w2);
        },
        Generator::SubU32 { a, b, borrow, out, borrow_out } => {
            lemma_constraint_stable(Constraint::SubU32 { a, b, borrow, out, borrow_out }, w1, w2);
        },
        Generator::MulU32 { a, b, out_lo, out_hi } => {
            lemma_constraint_stable(Constraint::MulU32 { a, b, out_lo, out_hi }, w1, w2);
        },
        Generator::AddManyU32 { inputs, out, carry } => {
            lemma_constraint_stable(Constraint::AddManyU32 { inputs, out, carry }, w1, w2);
        },
        Generator::ListLe { a, b, out } => {
            lemma_constraint_stable(Constraint::ListLe { a, b, out }, w1, w2);
        },
        Generator::FieldArith { op, a, b, out } => {
            lemma_constraint_stable(Constraint::FieldArith { op, a, b, out }, w1, w2);
        },
        Generator::BigUintDivRem { a, b, div, rem } => {
            assert forall|i: int| 0 <= i < a@.len()
                implies u32_ranged(w2, #[trigger] a@[i]) by {
                lemma_extends_preserves(w2, w1, a@[i].0);
            }
            assert forall|i: int| 0 <= i < b@.len()
                implies u32_ranged(w2, #[trigger] b@[i]) by {
                lemma_extends_preserves(w2, w1, b@[i].0);
            }
            assert forall|i: int| 0 <= i < div@.len()
                implies u32_ranged(w2, #[trigger] div@[i]) by {
                lemma_extends_preserves(w2, w1, div@[i].0);
            }
            assert forall|i: int| 0 <= i < rem@.len()
                implies u32_ranged(w2, #[trigger] rem@[i]) by {
                lemma_extends_preserves(w2, w1, rem@[i].0);
            }
            lemma_decoded_stable(w2, w1, a@);
            lemma_decoded_stable(w2, w1, b@);
            lemma_decoded_stable(w2, w1, div@);
            lemma_decoded_stable(w2, w1, rem@);
        },
        Generator::InsertionRow { gate, base } => {
            let vs = gate.vec_size as int;
            let b = base as int;
            crate::insertion::lemma_insertion_row_stable(vs, b, w1, w2);
            lemma_extends_preserves(w2, w1, wire(b, idx_insertion_index()));
            lemma_extends_preserves(w2, w1, wire(b, crate::insertion::idx_element_to_insert()));
            assert forall|i: int| 0 <= i <= vs implies
                tv(w2, #[trigger] wire(b, idx_output_list_item(vs, i)))
                    == inserted_value(w2, b, vs, i) by {
                assert(tset(w1, wire(b, idx_output_list_item(vs, i))));
                lemma_extends_preserves(w2, w1, wire(b, idx_output_list_item(vs, i)));
                let k = tv(w1, wire(b, idx_insertion_index()));
                if i < k {
                    assert(tset(w1, wire(b, crate::insertion::idx_list_item(i))));
                    lemma_extends_preserves(w2, w1, wire(b, crate::insertion::idx_list_item(i)));
                } else if i > k {
                    assert(tset(w1, wire(b, crate::insertion::idx_list_item(i - 1))));
                    lemma_extends_preserves(w2, w1, wire(b, crate::insertion::idx_list_item(i - 1)));
                }
            }
        },
    }
}

/// Some limb of the list sits at witness index `i`.
pub open spec fn contains_limb_index(ts: Seq<U32Target>, i: int) -> bool {
    exists|q: int| 0 <= q < ts.len() && (#[trigger] ts[q]).0.index == i
}

/// Distinct positions hold distinct targets.
pub open spec fn limbs_distinct(ts: Seq<U32Target>) -> bool {
    forall|q1: int, q2: int| 0 <= q1 < ts.len() && 0 <= q2 < ts.len() && q1 != q2
        ==> (#[trigger] ts[q1]).0.index != (#[trigger] ts[q2]).0.index
}

/// No limb of the first list shares a witness index with one of the second.
pub open spec fn limbs_disjoint(ts1: Seq<U32Target>, ts2: Seq<U32Target>) -> bool {
    forall|q1: int, q2: int| 0 <= q1 < ts1.len() && 0 <= q2 < ts2.len()
        ==> (#[trigger] ts1[q1]).0.index != (#[trigger] ts2[q2]).0.index
}

/// The division row can be generated: inputs ranged with a non-zero divisor,
/// both outputs wide enough, their limbs unassigned, in bounds and pairwise
/// distinct.
pub open spec fn div_rem_ready(
    a: Seq<U32Target>,
    bs: Seq<U32Target>,
    div: Seq<U32Target>,
    rem: Seq<U32Target>,
    w: Seq<Option<u64>>,
) -> bool {
    &&& limbs_ranged(w, a) && limbs_ranged(w, bs)
    &&& decoded(w, bs) > 0
    &&& div.len() >= a.len() && rem.len() >= bs.len()
    &&& forall|q: int| 0 <= q < div.len()
            ==> !tset(w, (#[trigger] div[q]).0) && (div[q]).0.index < w.len()
    &&& forall|q: int| 0 <= q < rem.len()
            ==> !tset(w, (#[trigger] rem[q]).0) && (rem[q]).0.index < w.len()
    &&& limbs_distinct(div) && limbs_distinct(rem) && limbs_disjoint(div, rem)
}

/// An all-zero limb-value list denotes zero.
proof fn lemma_dec_u64_all_zero(vs: Seq<u64>)
    requires
        forall|q: int| 0 <= q < vs.len() ==> #[trigger] vs[q] == 0,
    ensures
        dec_u64(vs) == 0,
    decreases vs.len(),
{
    if vs.len() > 0 {
        assert forall|q: int| 0 <= q < vs.drop_first().len()
            implies #[trigger] vs.drop_first()[q] == 0 by {
            assert(vs.drop_first()[q] == vs[q + 1]);
        }
        lemma_dec_u64_all_zero(vs.drop_first());
    }
}

/// Read a limb target, demanding a value below the limb base.
fn read_limb(w: &Witness, t: U32Target) -> (res: Result<u64, CircuitError>)
    ensures
        res matches Ok(v) ==> u32_ranged(w@, t) && v as int == tv(w@, t.0),
        res is Err ==> !u32_ranged(w@, t),
        !tset(w@, t.0) ==> res == Err::<u64, CircuitError>(CircuitError::UnassignedTarget),
{
    let v = match w.try_get(t.0) {
        Ok(v) => v,
        Err(er) => {
            return Err(er);
        },
    };
    if v >= LIMB_BASE {
        return Err(CircuitError::ValueOutOfRange);
    }
    Ok(v)
}

/// Write two fresh targets.
fn write_two(w: &mut Witness, t0: Target, v0: u64, t1: Target, v1: u64) -> (res: Result<
    (),
    CircuitError,
>)
    requires
        wit_wf(old(w)@),
    ensures
        wit_wf(final(w)@),
        wit_extends(final(w)@, old(w)@),
        forall|i: int| 0 <= i < final(w)@.len() && final(w)@[i] != old(w)@[i]
            ==> i == t0.index || i == t1.index,
        res is Ok ==> {
            &&& tset(final(w)@, t0) && tv(final(w)@, t0) == v0 as int
            &&& tset(final(w)@, t1) && tv(final(w)@, t1) == v1 as int
        },
        (!tset(old(w)@, t0) && !tset(old(w)@, t1) && t0.index != t1.index
            && t0.index < old(w)@.len() && t1.index < old(w)@.len() && is_felt(v0) && is_felt(
            v1,
        )) ==> res is Ok,
{
    let ghost g1 = w@;
    match w.try_set(t0, v0) {
        Ok(()) => {},
        Err(er) => {
            return Err(er);
        },
    }
    let ghost g2 = w@;
    match w.try_set(t1, v1) {
        Ok(()) => {},
        Err(er) => {
            proof {
                if !tset(g1, t0) && !tset(g1, t1) && t0.index != t1.index && t0.index < g1.len()
                    && t1.index < g1.len() && is_felt(v0) && is_felt(v1) {
                    assert(!tset(g2, t1));
                    assert(false);
                }
            }
            return Err(er);
        },
    }
    proof {
        lemma_extends_trans(w@, g2, g1);
        lemma_extends_preserves(w@, g2, t0);
    }
    Ok(())
}

/// Structural bounds on a generator's stored parameters (machine limits
/// only).
pub open spec fn gen_wf(g: Generator) -> bool {
    match g {
        Generator::InsertionRow { gate, base } => gate_wf(gate) && base + gate_num_wires(
            gate.vec_size as int,
        ) <= usize::MAX,
        _ => true,
    }
}

impl Generator {
    /// The declared dependencies: a generator is ready once every one of
    /// these targets holds a value.
    pub fn dependencies(&self) -> (r: Vec<Target>)
        requires
            gen_wf(*self),
        ensures
            r@ == gen_deps(*self),
    {
        match self {
            Generator::ConstantVal { .. } => {
                let r: Vec<Target> = Vec::new();
                proof {
                    assert(r@ =~= gen_deps(*self));
                }
                r
            },
            Generator::AddThreeU32 { a, b, c, .. } => {
                let r = vec![a.0, b.0, c.0];
                proof {
                    assert(r@ =~= gen_deps(*self));
                }
                r
            },
            Generator::SubU32 { a, b, borrow, .. } => {
                let r = vec![a.0, b.0, borrow.0];
                proof {
                    assert(r@ =~= gen_deps(*self));
                }
                r
            },
            Generator::MulU32 { a, b, .. } => {
                let r = vec![a.0, b.0];
                proof {
                    assert(r@ =~= gen_deps(*self));
                }
                r
            },
            Generator::AddManyU32 { inputs, .. } => {
                let mut r: Vec<Target> = Vec::new();
                push_limb_targets(&mut r, inputs);
                proof {
                    assert(r@ =~= gen_deps(*self));
                }
                r
            },
            Generator::ListLe { a, b, .. } => {
                let mut r: Vec<Target> = Vec::new();
                push_limb_targets(&mut r, a);
                push_limb_targets(&mut r, b);
                proof {
                    assert(r@ =~= gen_deps(*self));
                }
                r
            },
            Generator::FieldArith { a, b, .. } => {
                let r = vec![*a, *b];
                proof {
                    assert(r@ =~= gen_deps(*self));
                }
                r
            },
            Generator::BigUintDivRem { a, b, .. } => {
                let mut r: Vec<Target> = Vec::new();
                push_limb_targets(&mut r, a);
                push_limb_targets(&mut r, b);
                proof {
                    assert(r@ =~= gen_deps(*self));
                }
                r
            },
            Generator::InsertionRow { gate, base } => {
                let mut r: Vec<Target> = Vec::new();
                let n = gate.vec_size + 2;
                let mut j: usize = 0;
                while j < n
                    invariant
                        r@.len() == j,
                        j <= n,
                        base + n <= usize::MAX,
                        forall|q: int| 0 <= q < j as int
                            ==> r@[q] == wire(*base as int, q),
                    decreases n - j,
                {
                    r.push(Target { index: *base + j });
                    j = j + 1;
                }
                proof {
                    assert(r@ =~= gen_deps(*self));
                }
                r
            },
        }
    }
}

/// A limb-value list denotes a non-negative integer.
pub proof fn lemma_dec_u64_nonneg(vs: Seq<u64>)
    ensures
        dec_u64(vs) >= 0,
    decreases vs.len(),
{
    if vs.len() > 0 {
        lemma_dec_u64_nonneg(vs.drop_first());
        assert(LIMB_BASE * dec_u64(vs.drop_first()) >= 0) by (nonlinear_arith)
            requires dec_u64(vs.drop_first()) >= 0;
    }
}

/// A limb-value list with a non-zero limb denotes a positive integer.
pub proof fn lemma_dec_u64_pos(vs: Seq<u64>, i: int)
    requires
        0 <= i < vs.len(),
        vs[i] > 0,
    ensures
        dec_u64(vs) > 0,
    decreases vs.len(),
{
    lemma_dec_u64_nonneg(vs.drop_first());
    if i == 0 {
        assert(LIMB_BASE * dec_u64(vs.drop_first()) >= 0) by (nonlinear_arith)
            requires dec_u64(vs.drop_first()) >= 0;
    } else {
        assert(vs.drop_first()[i - 1] == vs[i]);
        lemma_dec_u64_pos(vs.drop_first(), i - 1);
        assert(LIMB_BASE * dec_u64(vs.drop_first()) > 0) by (nonlinear_arith)
            requires dec_u64(vs.drop_first()) > 0;
    }
}

/// Appending a limb target adds its value to the sum.
pub proof fn lemma_sum_u32_snoc(w: Seq<Option<u64>>, ts: Seq<U32Target>, t: U32Target)
    ensures
        sum_u32(w, ts.push(t)) == sum_u32(w, ts) + u32v(w, t),
    decreases ts.len(),
{
    if ts.len() == 0 {
        assert(ts.push(t)[0] == t);
        assert(ts.push(t).drop_first() =~= Seq::<U32Target>::empty());
        assert(sum_u32(w, ts.push(t).drop_first()) == 0);
        assert(sum_u32(w, ts.push(t)) == u32v(w, t) + 0);
    } else {
        assert(ts.push(t).drop_first() =~= ts.drop_first().push(t));
        lemma_sum_u32_snoc(w, ts.drop_first(), t);
    }
}

/// The generator can run: its dependencies hold suitable values and its
/// outputs are unassigned, in bounds and pairwise distinct. (An insertion
/// row must also be small enough that every equality dummy comes from the
/// precomputed inverse table.)
pub open spec fn gen_ready(g: Generator, w: Seq<Option<u64>>) -> bool {
    match g {
        Generator::ConstantVal { out, value } => !tset(w, out) && out.index < w.len() && value
            < FIELD_ORDER,
        Generator::AddThreeU32 { a, b, c, out, carry } => {
            &&& u32_ranged(w, a) && u32_ranged(w, b) && u32_ranged(w, c)
            &&& !tset(w, out.0) && !tset(w, carry.0)
            &&& out.0.index < w.len() && carry.0.index < w.len()
            &&& out.0.index != carry.0.index
        },
        Generator::SubU32 { a, b, borrow, out, borrow_out } => {
            &&& u32_ranged(w, a) && u32_ranged(w, b)
            &&& tset(w, borrow.0) && 0 <= tv(w, borrow.0) <= 1
            &&& !tset(w, out.0) && !tset(w, borrow_out.0)
            &&& out.0.index < w.len() && borrow_out.0.index < w.len()
            &&& out.0.index != borrow_out.0.index
        },
        Generator::MulU32 { a, b, out_lo, out_hi } => {
            &&& u32_ranged(w, a) && u32_ranged(w, b)
            &&& !tset(w, out_lo.0) && !tset(w, out_hi.0)
            &&& out_lo.0.index < w.len() && out_hi.0.index < w.len()
            &&& out_lo.0.index != out_hi.0.index
        },
        Generator::AddManyU32 { inputs, out, carry } => {
            &&& inputs@.len() <= LIMB_BASE
            &&& limbs_ranged(w, inputs@)
            &&& !tset(w, out.0) && !tset(w, carry.0)
            &&& out.0.index < w.len() && carry.0.index < w.len()
            &&& out.0.index != carry.0.index
        },
        Generator::ListLe { a, b, out } => {
            &&& a@.len() == b@.len()
            &&& limbs_ranged(w, a@) && limbs_ranged(w, b@)
            &&& !tset(w, out.target) && out.target.index < w.len()
        },
        Generator::FieldArith { op, a, b, out } => {
            &&& tset(w, a) && tset(w, b) && tv(w, a) < fp() && tv(w, b) < fp()
            &&& !tset(w, out) && out.index < w.len()
        },
        Generator::BigUintDivRem { a, b, div, rem } => div_rem_ready(a@, b@, div@, rem@, w),
        Generator::InsertionRow { gate, base } => gate_wf(gate) && gate.vec_size
            <= crate::field::SMALL_INVERSE_BOUND as usize
            && crate::insertion::insertion_row_ready(gate.vec_size as int, base as int, w),
    }
}

/// The witness indices this generator may assign: exactly its output wires.
pub open spec fn gen_writes(g: Generator, i: int) -> bool {
    match g {
        Generator::ConstantVal { out, .. } => i == out.index,
        Generator::AddThreeU32 { out, carry, .. } => i == out.0.index || i == carry.0.index,
        Generator::SubU32 { out, borrow_out, .. } => i == out.0.index || i == borrow_out.0.index,
        Generator::MulU32 { out_lo, out_hi, .. } => i == out_lo.0.index || i == out_hi.0.index,
        Generator::AddManyU32 { out, carry, .. } => i == out.0.index || i == carry.0.index,
        Generator::ListLe { out, .. } => i == out.target.index,
        Generator::FieldArith { out, .. } => i == out.index,
        Generator::BigUintDivRem { div, rem, .. } => contains_limb_index(div@, i)
            || contains_limb_index(rem@, i),
        Generator::InsertionRow { gate, base } => base + gate.vec_size as int + 2 <= i < base
            + gate_num_wires(gate.vec_size as int),
    }
}

/// Run one generator against the witness: read its dependencies, compute, and
/// write each of its outputs exactly once. On success the values written
/// satisfy the generator's row (`gen_post`); every failure is fatal. An
/// `UnassignedTarget` error always precedes the first write, so the scheduler
/// may retry such a generator once more dependencies are filled.
#[verifier::rlimit(100)]
pub fn run_generator(g: &Generator, w: &mut Witness) -> (res: Result<(), CircuitError>)
    requires
        wit_wf(old(w)@),
    ensures
        wit_wf(final(w)@),
        wit_extends(final(w)@, old(w)@),
        res is Ok ==> gen_post(*g, final(w)@),
        forall|i: int| 0 <= i < final(w)@.len() && final(w)@[i] != old(w)@[i]
            ==> gen_writes(*g, i),
        gen_ready(*g, old(w)@) ==> res is Ok,
{
    match g {
        Generator::ConstantVal { out, value } => {
            match w.try_set(*out, *value) {
                Ok(()) => Ok(()),
                Err(er) => Err(er),
            }
        },
        Generator::AddThreeU32 { a, b, c, out, carry } => {
            let va = match read_limb(w, *a) {
                Ok(v) => v,
                Err(er) => {
                    return Err(er);
                },
            };
            let vb = match read_limb(w, *b) {
                Ok(v) => v,
                Err(er) => {
                    return Err(er);
                },
            };
            let vc = match read_limb(w, *c) {
                Ok(v) => v,
                Err(er) => {
                    return Err(er);
                },
            };
            let s = va + vb + vc;
            let out_v = s % LIMB_BASE;
            let carry_v = s / LIMB_BASE;
            proof {
                vstd::arithmetic::div_mod::lemma_fundamental_div_mod(s as int, LIMB_BASE as int);
                vstd::arithmetic::div_mod::lemma_mod_bound(s as int, LIMB_BASE as int);
                vstd::arithmetic::div_mod::lemma_multiply_divide_lt(s as int, LIMB_BASE as int, 3);
                vstd::arithmetic::div_mod::lemma_div_pos_is_pos(s as int, LIMB_BASE as int);
            }
            let ghost w0 = w@;
            match write_two(w, out.0, out_v, carry.0, carry_v) {
                Ok(()) => {},
                Err(er) => {
                    return Err(er);
                },
            }
            proof {
                lemma_extends_preserves(w@, w0, a.0);
                lemma_extends_preserves(w@, w0, b.0);
                lemma_extends_preserves(w@, w0, c.0);
            }
            Ok(())
        },
        Generator::SubU32 { a, b, borrow, out, borrow_out } => {
            let va = match read_limb(w, *a) {
                Ok(v) => v,
                Err(er) => {
                    return Err(er);
                },
            };
            let vb = match read_limb(w, *b) {
                Ok(v) => v,
                Err(er) => {
                    return Err(er);
                },
            };
            let vbor = match w.try_get(borrow.0) {
                Ok(v) => v,
                Err(er) => {
                    return Err(er);
                },
            };
            if vbor > 1 {
                return Err(CircuitError::ValueOutOfRange);
            }
            let diff = va + LIMB_BASE - vb - vbor;
            let out_v = diff % LIMB_BASE;
            let q = diff / LIMB_BASE;
            proof {
                vstd::arithmetic::div_mod::lemma_fundamental_div_mod(diff as int, LIMB_BASE as int);
                vstd::arithmetic::div_mod::lemma_mod_bound(diff as int, LIMB_BASE as int);
                vstd::arithmetic::div_mod::lemma_multiply_divide_lt(diff as int, LIMB_BASE as int, 2);
                vstd::arithmetic::div_mod::lemma_div_pos_is_pos(diff as int, LIMB_BASE as int);
            }
            let borrow_out_v = 1 - q;
            let ghost w0 = w@;
            match write_two(w, out.0, out_v, borrow_out.0, borrow_out_v) {
                Ok(()) => {},
                Err(er) => {
                    return Err(er);
                },
            }
            proof {
                lemma_extends_preserves(w@, w0, a.0);
                lemma_extends_preserves(w@, w0, b.0);
                lemma_extends_preserves(w@, w0, borrow.0);
            }
            Ok(())
        },
        Generator::MulU32 { a, b, out_lo, out_hi } => {
            let va = match read_limb(w, *a) {
                Ok(v) => v,
                Err(er) => {
                    return Err(er);
                },
            };
            let vb = match read_limb(w, *b) {
                Ok(v) => v,
                Err(er) => {
                    return Err(er);
                },
            };
            proof {
                assert((va as int) * (vb as int) < (LIMB_BASE as int) * (LIMB_BASE as int))
                    by (nonlinear_arith)
                    requires 0 <= va < LIMB_BASE, 0 <= vb < LIMB_BASE;
                assert((va as int) * (vb as int) >= 0) by (nonlinear_arith)
                    requires va >= 0, vb >= 0;
            }
            let prod = va * vb;
            let lo = prod % LIMB_BASE;
            let hi = prod / LIMB_BASE;
            proof {
                vstd::arithmetic::div_mod::lemma_fundamental_div_mod(prod as int, LIMB_BASE as int);
                vstd::arithmetic::div_mod::lemma_mod_bound(prod as int, LIMB_BASE as int);
                vstd::arithmetic::div_mod::lemma_multiply_divide_lt(
                    prod as int, LIMB_BASE as int, LIMB_BASE as int,
                );
                vstd::arithmetic::div_mod::lemma_div_pos_is_pos(prod as int, LIMB_BASE as int);
            }
            let ghost w0 = w@;
            match write_two(w, out_lo.0, lo, out_hi.0, hi) {
                Ok(()) => {},
                Err(er) => {
                    return Err(er);
                },
            }
            proof {
                lemma_extends_preserves(w@, w0, a.0);
                lemma_extends_preserves(w@, w0, b.0);
            }
            Ok(())
        },
        Generator::AddManyU32 { inputs, out, carry } => {
            if inputs.len() as u64 > LIMB_BASE {
                return Err(CircuitError::ShapeMismatch);
            }
            let mut s: u128 = 0;
            let mut i: usize = 0;
            proof {
                assert(inputs@.take(0) =~= Seq::<U32Target>::empty());
            }
            while i < inputs.len()
                invariant
                    i <= inputs@.len(),
                    inputs@.len() <= LIMB_BASE,
                    wit_wf(w@),
                    w@ == old(w)@,
                    *g == (Generator::AddManyU32 { inputs: *inputs, out: *out, carry: *carry }),
                    s as int == sum_u32(w@, inputs@.take(i as int)),
                    s as int <= (i as int) * (LIMB_BASE - 1),
                    forall|q: int| 0 <= q < i as int ==> u32_ranged(w@, #[trigger] inputs@[q]),
                decreases inputs@.len() - i,
            {
                let v = match read_limb(w, inputs[i]) {
                    Ok(v) => v,
                    Err(er) => {
                        proof {
                            if gen_ready(*g, old(w)@) {
                                assert(u32_ranged(old(w)@, inputs@[i as int]));
                                assert(false);
                            }
                        }
                        return Err(er);
                    },
                };
                proof {
                    lemma_sum_u32_snoc(w@, inputs@.take(i as int), inputs@[i as int]);
                    assert(inputs@.take(i as int + 1) =~= inputs@.take(i as int).push(
                        inputs@[i as int],
                    ));
                    assert((i as int) * (LIMB_BASE - 1) + (LIMB_BASE - 1)
                        == (i as int + 1) * (LIMB_BASE - 1)) by (nonlinear_arith);
                    assert((i as int + 1) * (LIMB_BASE - 1)
                        <= (LIMB_BASE as int) * (LIMB_BASE - 1)) by (nonlinear_arith)
                        requires i as int + 1 <= LIMB_BASE as int;
                }
                s = s + v as u128;
                i = i + 1;
            }
            proof {
                assert(inputs@.take(inputs@.len() as int) =~= inputs@);
                assert((LIMB_BASE as int) * (LIMB_BASE - 1)
                    < (LIMB_BASE as int) * (LIMB_BASE as int)) by (nonlinear_arith);
                vstd::arithmetic::div_mod::lemma_fundamental_div_mod(s as int, LIMB_BASE as int);
                vstd::arithmetic::div_mod::lemma_mod_bound(s as int, LIMB_BASE as int);
                vstd::arithmetic::div_mod::lemma_multiply_divide_lt(
                    s as int, LIMB_BASE as int, LIMB_BASE as int,
                );
                vstd::arithmetic::div_mod::lemma_div_pos_is_pos(s as int, LIMB_BASE as int);
            }
            let out_v = (s % LIMB_BASE as u128) as u64;
            let carry_v = (s / LIMB_BASE as u128) as u64;
            let ghost w0 = w@;
            match write_two(w, out.0, out_v, carry.0, carry_v) {
                Ok(()) => {},
                Err(er) => {
                    return Err(er);
                },
            }
            proof {
                assert forall|q: int| 0 <= q < inputs@.len()
                    implies u32_ranged(w@, #[trigger] inputs@[q]) by {
                    lemma_extends_preserves(w@, w0, inputs@[q].0);
                }
                lemma_decoded_stable(w@, w0, inputs@);
            }
            Ok(())
        },
        Generator::ListLe { a, b, out } => {
            if a.len() != b.len() {
                return Err(CircuitError::ShapeMismatch);
            }
            let mut va: Vec<u64> = Vec::new();
            let mut i: usize = 0;
            while i < a.len()
                invariant
                    i <= a@.len(),
                    wit_wf(w@),
                    w@ == old(w)@,
                    *g == (Generator::ListLe { a: *a, b: *b, out: *out }),
                    va@.len() == i,
                    forall|q: int| 0 <= q < i as int
                        ==> u32_ranged(w@, #[trigger] a@[q]) && va@[q] as int == u32v(w@, a@[q]),
                decreases a@.len() - i,
            {
                let v = match read_limb(w, a[i]) {
                    Ok(v) => v,
                    Err(er) => {
                        proof {
                            if gen_ready(*g, old(w)@) {
                                assert(u32_ranged(old(w)@, a@[i as int]));
                                assert(false);
                            }
                        }
                        return Err(er);
                    },
                };
                va.push(v);
                i = i + 1;
            }
            let mut vb: Vec<u64> = Vec::new();
            let mut j: usize = 0;
            while j < b.len()
                invariant
                    j <= b@.len(),
                    wit_wf(w@),
                    w@ == old(w)@,
                    *g == (Generator::ListLe { a: *a, b: *b, out: *out }),
                    vb@.len() == j,
                    forall|q: int| 0 <= q < j as int
                        ==> u32_ranged(w@, #[trigger] b@[q]) && vb@[q] as int == u32v(w@, b@[q]),
                decreases b@.len() - j,
            {
                let v = match read_limb(w, b[j]) {
                    Ok(v) => v,
                    Err(er) => {
                        proof {
                            if gen_ready(*g, old(w)@) {
                                assert(u32_ranged(old(w)@, b@[j as int]));
                                assert(false);
                            }
                        }
                        return Err(er);
                    },
                };
                vb.push(v);
                j = j + 1;
            }
            proof {
                assert forall|q: int| 0 <= q < va@.len() implies #[trigger] va@[q] < LIMB_BASE by {
                    assert(u32_ranged(w@, a@[q]));
                }
                assert forall|q: int| 0 <= q < vb@.len() implies #[trigger] vb@[q] < LIMB_BASE by {
                    assert(u32_ranged(w@, b@[q]));
                }
            }
            let le = limb_values_le(&va, &vb);
            proof {
                lemma_decoded_eq_vals(w@, a@, va@);
                lemma_decoded_eq_vals(w@, b@, vb@);
            }
            let ghost w0 = w@;
            let out_v: u64 = if le {
                1
            } else {
                0
            };
            match w.try_set(out.target, out_v) {
                Ok(()) => {},
                Err(er) => {
                    return Err(er);
                },
            }
            proof {
                assert forall|q: int| 0 <= q < a@.len()
                    implies u32_ranged(w@, #[trigger] a@[q]) by {
                    lemma_extends_preserves(w@, w0, a@[q].0);
                }
                assert forall|q: int| 0 <= q < b@.len()
                    implies u32_ranged(w@, #[trigger] b@[q]) by {
                    lemma_extends_preserves(w@, w0, b@[q].0);
                }
                lemma_decoded_stable(w@, w0, a@);
                lemma_decoded_stable(w@, w0, b@);
            }
            Ok(())
        },
        Generator::FieldArith { op, a, b, out } => {
            let va = match w.try_get(*a) {
                Ok(v) => v,
                Err(er) => {
                    return Err(er);
                },
            };
            let vb = match w.try_get(*b) {
                Ok(v) => v,
                Err(er) => {
                    return Err(er);
                },
            };
            if va >= FIELD_ORDER || vb >= FIELD_ORDER {
                return Err(CircuitError::ValueOutOfRange);
            }
            let vo = match op {
                ArithOp::AddMod => f_add(va, vb),
                ArithOp::SubMod => f_sub(va, vb),
                ArithOp::MulMod => f_mul(va, vb),
            };
            let ghost w0 = w@;
            match w.try_set(*out, vo) {
                Ok(()) => {},
                Err(er) => {
                    return Err(er);
                },
            }
            proof {
                lemma_extends_preserves(w@, w0, *a);
                lemma_extends_preserves(w@, w0, *b);
            }
            Ok(())
        },
        Generator::BigUintDivRem { a, b, div, rem } => {
            run_div_rem_generator(a, b, div, rem, w)
        },
        Generator::InsertionRow { gate, base } => {
            if gate.vec_size > crate::insertion::MAX_VEC_SIZE {
                return Err(CircuitError::ShapeMismatch);
            }
            let res = crate::insertion::run_insertion_generator(gate, *base, w);
            match res {
                Ok(()) => Ok(()),
                Err(er) => Err(er),
            }
        },
    }
}

/// The division generator: reads the dividend and divisor, computes native
/// integer quotient and remainder through the big-integer library, and writes
/// them (zero-extended) into the pre-allocated quotient and remainder limbs.
/// A divisor whose value is zero is a fatal error.
#[verifier::rlimit(60)]
fn run_div_rem_generator(
    a: &Vec<U32Target>,
    b: &Vec<U32Target>,
    div: &Vec<U32Target>,
    rem: &Vec<U32Target>,
    w: &mut Witness,
) -> (res: Result<(), CircuitError>)
    requires
        wit_wf(old(w)@),
    ensures
        wit_wf(final(w)@),
        wit_extends(final(w)@, old(w)@),
        res is Ok ==> gen_post(
            Generator::BigUintDivRem { a: *a, b: *b, div: *div, rem: *rem },
            final(w)@,
        ),
        forall|i: int| 0 <= i < final(w)@.len() && final(w)@[i] != old(w)@[i]
            ==> contains_limb_index(div@, i) || contains_limb_index(rem@, i),
        div_rem_ready(a@, b@, div@, rem@, old(w)@) ==> res is Ok,
{
    let ghost ready = div_rem_ready(a@, b@, div@, rem@, old(w)@);
    let mut va: Vec<u64> = Vec::new();
    let mut i: usize = 0;
    while i < a.len()
        invariant
            i <= a@.len(),
            wit_wf(w@),
            w@ == old(w)@,
            ready == div_rem_ready(a@, b@, div@, rem@, old(w)@),
            va@.len() == i,
            forall|q: int| 0 <= q < i as int
                ==> u32_ranged(w@, #[trigger] a@[q]) && va@[q] as int == u32v(w@, a@[q]),
            forall|q: int| 0 <= q < i as int ==> #[trigger] va@[q] < LIMB_BASE,
        decreases a@.len() - i,
    {
        let v = match read_limb(w, a[i]) {
            Ok(v) => v,
            Err(er) => {
                proof {
                    if ready {
                        assert(u32_ranged(w@, a@[i as int]));
                        assert(false);
                    }
                }
                return Err(er);
            },
        };
        va.push(v);
        i = i + 1;
    }
    let mut vb: Vec<u64> = Vec::new();
    let mut j: usize = 0;
    let mut nonzero_at: usize = 0;
    let mut found_nonzero = false;
    while j < b.len()
        invariant
            j <= b@.len(),
            wit_wf(w@),
            w@ == old(w)@,
            ready == div_rem_ready(a@, b@, div@, rem@, old(w)@),
            vb@.len() == j,
            forall|q: int| 0 <= q < j as int
                ==> u32_ranged(w@, #[trigger] b@[q]) && vb@[q] as int == u32v(w@, b@[q]),
            forall|q: int| 0 <= q < j as int ==> #[trigger] vb@[q] < LIMB_BASE,
            found_nonzero ==> nonzero_at < j && vb@[nonzero_at as int] > 0,
            !found_nonzero ==> forall|q: int| 0 <= q < j as int ==> #[trigger] vb@[q] == 0,
        decreases b@.len() - j,
    {
        let v = match read_limb(w, b[j]) {
            Ok(v) => v,
            Err(er) => {
                proof {
                    if ready {
                        assert(u32_ranged(w@, b@[j as int]));
                        assert(false);
                    }
                }
                return Err(er);
            },
        };
        if v != 0 && !found_nonzero {
            found_nonzero = true;
            nonzero_at = j;
        }
        vb.push(v);
        j = j + 1;
    }
    if !found_nonzero {
        proof {
            if ready {
                lemma_dec_u64_all_zero(vb@);
                lemma_decoded_eq_vals(w@, b@, vb@);
                assert(false);
            }
        }
        return Err(CircuitError::ZeroDivisor);
    }
    if div.len() < a.len() || rem.len() < b.len() {
        proof {
            if ready {
                assert(false);
            }
        }
        return Err(CircuitError::ShapeMismatch);
    }
    proof {
        lemma_dec_u64_pos(vb@, nonzero_at as int);
    }
    let qr = crate::biguint::div_rem_u32_limbs(&va, &vb);
    let qd = qr.0;
    let rd = qr.1;
    let ghost w0 = w@;
    match write_digit_limbs(w, div, &qd) {
        Ok(()) => {},
        Err(er) => {
            proof {
                if ready {
                    assert(false);
                }
            }
            return Err(er);
        },
    }
    let ghost w1 = w@;
    match write_digit_limbs(w, rem, &rd) {
        Ok(()) => {},
        Err(er) => {
            proof {
                lemma_extends_trans(w@, w1, w0);
                if ready {
                    assert forall|q: int| 0 <= q < rem@.len()
                        implies !tset(w1, (#[trigger] rem@[q]).0) by {
                        assert(w1[rem@[q].0.index as int] == w0[rem@[q].0.index as int]) by {
                            if w1[rem@[q].0.index as int] != w0[rem@[q].0.index as int] {
                                assert(contains_limb_index(div@, rem@[q].0.index as int));
                            }
                        }
                    }
                    assert(false);
                }
            }
            return Err(er);
        },
    }
    proof {
        lemma_extends_trans(w@, w1, w0);
        assert forall|q: int| 0 <= q < a@.len()
            implies u32_ranged(w@, #[trigger] a@[q]) by {
            lemma_extends_preserves(w@, w0, a@[q].0);
        }
        assert forall|q: int| 0 <= q < b@.len()
            implies u32_ranged(w@, #[trigger] b@[q]) by {
            lemma_extends_preserves(w@, w0, b@[q].0);
        }
        lemma_decoded_stable(w@, w0, a@);
        lemma_decoded_stable(w@, w0, b@);
        lemma_decoded_eq_vals(w@, a@, va@);
        lemma_decoded_eq_vals(w@, b@, vb@);
        assert forall|q: int| 0 <= q < div@.len()
            implies u32_ranged(w@, #[trigger] div@[q])
                && u32v(w@, div@[q]) == (if q < qd@.len() { qd@[q] as int } else { 0int }) by {
            lemma_extends_preserves(w@, w1, div@[q].0);
        }
        lemma_decoded_from_digits(w@, div@, qd@);
        lemma_decoded_from_digits(w@, rem@, rd@);
        assert forall|i2: int| 0 <= i2 < w@.len() && w@[i2] != old(w)@[i2]
            implies contains_limb_index(div@, i2) || contains_limb_index(rem@, i2) by {
            if w1[i2] == w0[i2] {
                assert(w@[i2] != w1[i2]);
            }
        }
    }
    Ok(())
}

/// Write the digits of `ds` across the targets `ts`, zero-extending at the
/// top.
fn write_digit_limbs(w: &mut Witness, ts: &Vec<U32Target>, ds: &Vec<u64>) -> (res: Result<
    (),
    CircuitError,
>)
    requires
        wit_wf(old(w)@),
        ds@.len() <= ts@.len(),
        forall|i: int| 0 <= i < ds@.len() ==> #[trigger] ds@[i] < LIMB_BASE,
    ensures
        wit_wf(final(w)@),
        wit_extends(final(w)@, old(w)@),
        forall|i: int| 0 <= i < final(w)@.len() && final(w)@[i] != old(w)@[i]
            ==> contains_limb_index(ts@, i),
        res is Ok ==> forall|i: int| 0 <= i < ts@.len()
            ==> u32_ranged(final(w)@, #[trigger] ts@[i])
                && u32v(final(w)@, ts@[i]) == (if i < ds@.len() { ds@[i] as int } else { 0int }),
        (limbs_distinct(ts@) && forall|q: int| 0 <= q < ts@.len()
            ==> !tset(old(w)@, (#[trigger] ts@[q]).0) && (ts@[q]).0.index < old(w)@.len())
            ==> res is Ok,
{
    let ghost ready = limbs_distinct(ts@) && forall|q: int| 0 <= q < ts@.len()
        ==> !tset(old(w)@, (#[trigger] ts@[q]).0) && (ts@[q]).0.index < old(w)@.len();
    let mut i: usize = 0;
    while i < ts.len()
        invariant
            i <= ts@.len(),
            ds@.len() <= ts@.len(),
            ready == (limbs_distinct(ts@) && forall|q: int| 0 <= q < ts@.len()
                ==> !tset(old(w)@, (#[trigger] ts@[q]).0) && (ts@[q]).0.index < old(w)@.len()),
            forall|q: int| 0 <= q < ds@.len() ==> #[trigger] ds@[q] < LIMB_BASE,
            wit_wf(w@),
            wit_extends(w@, old(w)@),
            forall|i2: int| 0 <= i2 < w@.len() && w@[i2] != old(w)@[i2]
                ==> contains_limb_index(ts@, i2),
            ready ==> forall|q: int| i as int <= q < ts@.len()
                ==> !tset(w@, (#[trigger] ts@[q]).0),
            forall|q: int| 0 <= q < i as int
                ==> u32_ranged(w@, #[trigger] ts@[q])
                    && u32v(w@, ts@[q]) == (if q < ds@.len() { ds@[q] as int } else { 0int }),
        decreases ts@.len() - i,
    {
        let v: u64 = if i < ds.len() {
            ds[i]
        } else {
            0
        };
        let ghost wp = w@;
        match w.try_set(ts[i].0, v) {
            Ok(()) => {},
            Err(er) => {
                proof {
                    if ready {
                        assert(!tset(wp, ts@[i as int].0));
                        assert(false);
                    }
                }
                return Err(er);
            },
        }
        proof {
            lemma_extends_trans(w@, wp, old(w)@);
            assert forall|q: int| 0 <= q < i as int
                implies u32_ranged(w@, #[trigger] ts@[q])
                    && u32v(w@, ts@[q]) == (if q < ds@.len() { ds@[q] as int } else { 0int }) by {
                lemma_extends_preserves(w@, wp, ts@[q].0);
            }
            assert forall|i2: int| 0 <= i2 < w@.len() && w@[i2] != old(w)@[i2]
                implies contains_limb_index(ts@, i2) by {
                if wp[i2] == old(w)@[i2] {
                    assert(w@[i2] != wp[i2]);
                    assert(ts@[i as int].0.index == i2);
                }
            }
            if ready {
                assert forall|q: int| i as int + 1 <= q < ts@.len()
                    implies !tset(w@, (#[trigger] ts@[q]).0) by {
                    assert(ts@[q].0.index != ts@[i as int].0.index);
                }
            }
        }
        i = i + 1;
    }
    Ok(())
}

/// Append the underlying target of each limb.
fn push_limb_targets(r: &mut Vec<Target>, ts: &Vec<U32Target>)
    ensures
        final(r)@ == old(r)@ + targets_of(ts@),
{
    let mut i: usize = 0;
    while i < ts.len()
        invariant
            i <= ts@.len(),
            r@ == old(r)@ + targets_of(ts@).take(i as int),
        decreases ts@.len() - i,
    {
        r.push(ts[i].0);
        proof {
            assert(r@ =~= old(r)@ + targets_of(ts@).take(i as int + 1));
        }
        i = i + 1;
    }
    proof {
        assert(targets_of(ts@).take(ts@.len() as int) =~= targets_of(ts@));
    }
}

/// The circuit under construction: the number of targets allocated so far,
/// the constraints recorded, and the generators registered. Construction
/// never performs field arithmetic.
pub struct CircuitBuilder {
    pub num_targets: usize,
    pub constraints: Vec<Constraint>,
    pub generators: Vec<Generator>,
}

impl CircuitBuilder {
    pub fn new() -> (c: CircuitBuilder)
        ensures
            c.num_targets == 0,
            c.constraints@.len() == 0,
            c.generators@.len() == 0,
    {
        CircuitBuilder { num_targets: 0, constraints: Vec::new(), generators: Vec::new() }
    }

    /// A fresh target with no constraint on it.
    pub fn add_virtual_target(&mut self) -> (t: Target)
        requires
            old(self).num_targets < usize::MAX,
        ensures
            t.index == old(self).num_targets,
            final(self).num_targets == old(self).num_targets + 1,
            final(self).constraints@ == old(self).constraints@,
            final(self).generators@ == old(self).generators@,
    {
        let t = Target { index: self.num_targets };
        self.num_targets = self.num_targets + 1;
        t
    }

    /// A fresh limb target, constrained to hold a value below 2^32.
    pub fn add_virtual_u32_target(&mut self) -> (t: U32Target)
        requires
            old(self).num_targets < usize::MAX,
        ensures
            t.0.index == old(self).num_targets,
            final(self).num_targets == old(self).num_targets + 1,
            final(self).constraints@ == old(self).constraints@.push(
                (Constraint::U32Range { t }),
            ),
            final(self).generators@ == old(self).generators@,
    {
        let t = U32Target(Target { index: self.num_targets });
        self.num_targets = self.num_targets + 1;
        self.constraints.push(Constraint::U32Range { t });
        t
    }

    /// A limb target holding the constant zero.
    pub fn zero_u32(&mut self) -> (t: U32Target)
        requires
            old(self).num_targets < usize::MAX,
        ensures
            t.0.index == old(self).num_targets,
            final(self).num_targets == old(self).num_targets + 1,
            final(self).constraints@ == old(self).constraints@.push(
                (Constraint::ConstantVal { t: t.0, value: 0 }),
            ),
            final(self).generators@ == old(self).generators@.push(
                (Generator::ConstantVal { out: t.0, value: 0 }),
            ),
    {
        let t = U32Target(Target { index: self.num_targets });
        self.num_targets = self.num_targets + 1;
        self.constraints.push(Constraint::ConstantVal { t: t.0, value: 0 });
        self.generators.push(Generator::ConstantVal { out: t.0, value: 0 });
        t
    }

    /// Assert that two targets hold equal values.
    pub fn connect(&mut self, a: Target, b: Target)
        ensures
            final(self).num_targets == old(self).num_targets,
            final(self).constraints@ == old(self).constraints@.push(
                (Constraint::ConnectVals { a, b }),
            ),
            final(self).generators@ == old(self).generators@,
    {
        self.constraints.push(Constraint::ConnectVals { a, b });
    }

    /// Assert that two limb targets hold equal values.
    pub fn connect_u32(&mut self, a: U32Target, b: U32Target)
        ensures
            final(self).num_targets == old(self).num_targets,
            final(self).constraints@ == old(self).constraints@.push(
                (Constraint::ConnectVals { a: a.0, b: b.0 }),
            ),
            final(self).generators@ == old(self).generators@,
    {
        self.constraints.push(Constraint::ConnectVals { a: a.0, b: b.0 });
    }

    /// Assert that a limb target holds zero.
    pub fn assert_zero_u32(&mut self, t: U32Target)
        ensures
            final(self).num_targets == old(self).num_targets,
            final(self).constraints@ == old(self).constraints@.push(
                (Constraint::AssertZero { t: t.0 }),
            ),
            final(self).generators@ == old(self).generators@,
    {
        self.constraints.push(Constraint::AssertZero { t: t.0 });
    }

    /// Assert that a target holds one.
    pub fn assert_one(&mut self, t: Target)
        ensures
            final(self).num_targets == old(self).num_targets,
            final(self).constraints@ == old(self).constraints@.push(
                (Constraint::AssertOne { t }),
            ),
            final(self).generators@ == old(self).generators@,
    {
        self.constraints.push(Constraint::AssertOne { t });
    }

    /// Add two limbs and an incoming carry: a fresh output limb and a fresh
    /// carry such that `a + b + c == out + base * carry`.
    pub fn add_three_u32(&mut self, a: U32Target, b: U32Target, c: U32Target) -> (r: (
        U32Target,
        U32Target,
    ))
        requires
            old(self).num_targets + 2 <= usize::MAX,
        ensures
            r.0.0.index == old(self).num_targets,
            r.1.0.index == old(self).num_targets + 1,
            final(self).num_targets == old(self).num_targets + 2,
            final(self).constraints@ == old(self).constraints@.push(
                (Constraint::AddThreeU32 { a, b, c, out: r.0, carry: r.1 }),
            ),
            final(self).generators@ == old(self).generators@.push(
                (Generator::AddThreeU32 { a, b, c, out: r.0, carry: r.1 }),
            ),
    {
        let out = U32Target(Target { index: self.num_targets });
        let carry = U32Target(Target { index: self.num_targets + 1 });
        self.num_targets = self.num_targets + 2;
        self.constraints.push(Constraint::AddThreeU32 { a, b, c, out, carry });
        self.generators.push(Generator::AddThreeU32 { a, b, c, out, carry });
        (out, carry)
    }

    /// Subtract with borrow: a fresh output limb and a fresh outgoing borrow
    /// such that `out == a - b - borrow + base * borrow_out`.
    pub fn sub_u32(&mut self, a: U32Target, b: U32Target, borrow: U32Target) -> (r: (
        U32Target,
        U32Target,
    ))
        requires
            old(self).num_targets + 2 <= usize::MAX,
        ensures
            r.0.0.index == old(self).num_targets,
            r.1.0.index == old(self).num_targets + 1,
            final(self).num_targets == old(self).num_targets + 2,
            final(self).constraints@ == old(self).constraints@.push(
                (Constraint::SubU32 { a, b, borrow, out: r.0, borrow_out: r.1 }),
            ),
            final(self).generators@ == old(self).generators@.push(
                (Generator::SubU32 { a, b, borrow, out: r.0, borrow_out: r.1 }),
            ),
    {
        let out = U32Target(Target { index: self.num_targets });
        let borrow_out = U32Target(Target { index: self.num_targets + 1 });
        self.num_targets = self.num_targets + 2;
        self.constraints.push(Constraint::SubU32 { a, b, borrow, out, borrow_out });
        self.generators.push(Generator::SubU32 { a, b, borrow, out, borrow_out });
        (out, borrow_out)
    }

    /// Multiply two limbs: fresh low and high output limbs such that
    /// `a * b == out_lo + base * out_hi`.
    pub fn mul_u32(&mut self, a: U32Target, b: U32Target) -> (r: (U32Target, U32Target))
        requires
            old(self).num_targets + 2 <= usize::MAX,
        ensures
            r.0.0.index == old(self).num_targets,
            r.1.0.index == old(self).num_targets + 1,
            final(self).num_targets == old(self).num_targets + 2,
            final(self).constraints@ == old(self).constraints@.push(
                (Constraint::MulU32 { a, b, out_lo: r.0, out_hi: r.1 }),
            ),
            final(self).generators@ == old(self).generators@.push(
                (Generator::MulU32 { a, b, out_lo: r.0, out_hi: r.1 }),
            ),
    {
        let out_lo = U32Target(Target { index: self.num_targets });
        let out_hi = U32Target(Target { index: self.num_targets + 1 });
        self.num_targets = self.num_targets + 2;
        self.constraints.push(Constraint::MulU32 { a, b, out_lo, out_hi });
        self.generators.push(Generator::MulU32 { a, b, out_lo, out_hi });
        (out_lo, out_hi)
    }

    /// Add many limbs: a fresh output limb and a fresh carry limb such that
    /// `sum(inputs) == out + base * carry`.
    pub fn add_many_u32(&mut self, inputs: &Vec<U32Target>) -> (r: (U32Target, U32Target))
        requires
            old(self).num_targets + 2 <= usize::MAX,
        ensures
            r.0.0.index == old(self).num_targets,
            r.1.0.index == old(self).num_targets + 1,
            final(self).num_targets == old(self).num_targets + 2,
            final(self).constraints@.len() == old(self).constraints@.len() + 1,
            final(self).constraints@.take(old(self).constraints@.len() as int)
                == old(self).constraints@,
            (final(self).constraints@.last() matches Constraint::AddManyU32 {
                inputs: iv,
                out,
                carry,
            } && iv@ == inputs@ && out == r.0 && carry == r.1),
            final(self).generators@.len() == old(self).generators@.len() + 1,
            final(self).generators@.take(old(self).generators@.len() as int)
                == old(self).generators@,
            (final(self).generators@.last() matches Generator::AddManyU32 {
                inputs: iv,
                out,
                carry,
            } && iv@ == inputs@ && out == r.0 && carry == r.1),
    {
        let out = U32Target(Target { index: self.num_targets });
        let carry = U32Target(Target { index: self.num_targets + 1 });
        self.num_targets = self.num_targets + 2;
        self.constraints.push(Constraint::AddManyU32 { inputs: inputs.clone(), out, carry });
        self.generators.push(Generator::AddManyU32 { inputs: inputs.clone(), out, carry });
        proof {
            assert(self.constraints@.take(self.constraints@.len() - 1) =~= old(
                self,
            ).constraints@);
            assert(self.generators@.take(self.generators@.len() - 1) =~= old(self).generators@);
        }
        (out, carry)
    }

    /// Compare two equal-length limb lists: a fresh boolean target that is 1
    /// exactly when the first denotes a value at most the second's.
    pub fn list_le(&mut self, a: &Vec<U32Target>, b: &Vec<U32Target>) -> (r: BoolTarget)
        requires
            old(self).num_targets < usize::MAX,
            a@.len() == b@.len(),
        ensures
            r.target.index == old(self).num_targets,
            final(self).num_targets == old(self).num_targets + 1,
            final(self).constraints@.len() == old(self).constraints@.len() + 1,
            final(self).constraints@.take(old(self).constraints@.len() as int)
                == old(self).constraints@,
            (final(self).constraints@.last() matches Constraint::ListLe { a: av, b: bv, out }
                && av@ == a@ && bv@ == b@ && out == r),
            final(self).generators@.len() == old(self).generators@.len() + 1,
            final(self).generators@.take(old(self).generators@.len() as int)
                == old(self).generators@,
            (final(self).generators@.last() matches Generator::ListLe { a: av, b: bv, out }
                && av@ == a@ && bv@ == b@ && out == r),
    {
        let out = BoolTarget { target: Target { index: self.num_targets } };
        self.num_targets = self.num_targets + 1;
        self.constraints.push(Constraint::ListLe { a: a.clone(), b: b.clone(), out });
        self.generators.push(Generator::ListLe { a: a.clone(), b: b.clone(), out });
        proof {
            assert(self.constraints@.take(self.constraints@.len() - 1) =~= old(
                self,
            ).constraints@);
            assert(self.generators@.take(self.generators@.len() - 1) =~= old(self).generators@);
        }
        out
    }

    /// Place one insertion-gate row: allocates the row's wires and registers
    /// the row's constraints and generator. Returns the row's wire offset;
    /// the caller fills the input wires (index, element, list) with values
    /// before generation.
    pub fn add_insertion_row(&mut self, gate: &InsertionGate) -> (base: usize)
        requires
            gate_wf(*gate),
            old(self).num_targets + gate_num_wires(gate.vec_size as int) <= usize::MAX,
        ensures
            base == old(self).num_targets,
            final(self).num_targets == old(self).num_targets + gate_num_wires(
                gate.vec_size as int,
            ),
            final(self).constraints@ == old(self).constraints@.push(
                (Constraint::InsertionRow { vec_size: gate.vec_size, base }),
            ),
            final(self).generators@ == old(self).generators@.push(
                (Generator::InsertionRow { gate: *gate, base }),
            ),
    {
        let base = self.num_targets;
        let nw = gate.num_wires();
        self.num_targets = self.num_targets + nw;
        self.constraints.push(Constraint::InsertionRow { vec_size: gate.vec_size, base });
        let mut gens = gate.generators(base);
        match gens.pop() {
            Some(g) => {
                self.generators.push(g);
            },
            None => {},
        }
        proof {
            assert(final(self).generators@ =~= old(self).generators@.push(
                (Generator::InsertionRow { gate: *gate, base }),
            ));
        }
        base
    }

    /// A fresh target holding the given constant.
    pub fn add_constant(&mut self, value: u64) -> (t: Target)
        requires
            old(self).num_targets < usize::MAX,
            value < FIELD_ORDER,
        ensures
            t.index == old(self).num_targets,
            final(self).num_targets == old(self).num_targets + 1,
            final(self).constraints@ == old(self).constraints@.push(
                (Constraint::ConstantVal { t, value }),
            ),
            final(self).generators@ == old(self).generators@.push(
                (Generator::ConstantVal { out: t, value }),
            ),
    {
        let t = Target { index: self.num_targets };
        self.num_targets = self.num_targets + 1;
        self.constraints.push(Constraint::ConstantVal { t, value });
        self.generators.push(Generator::ConstantVal { out: t, value });
        t
    }

    /// One base-field operation in-circuit: a fresh output wire constrained
    /// to `op(a, b)` in the field.
    pub fn field_arith(&mut self, op: ArithOp, a: Target, b: Target) -> (t: Target)
        requires
            old(self).num_targets < usize::MAX,
        ensures
            t.index == old(self).num_targets,
            final(self).num_targets == old(self).num_targets + 1,
            final(self).constraints@ == old(self).constraints@.push(
                (Constraint::FieldArith { op, a, b, out: t }),
            ),
            final(self).generators@ == old(self).generators@.push(
                (Generator::FieldArith { op, a, b, out: t }),
            ),
    {
        let t = Target { index: self.num_targets };
        self.num_targets = self.num_targets + 1;
        self.constraints.push(Constraint::FieldArith { op, a, b, out: t });
        self.generators.push(Generator::FieldArith { op, a, b, out: t });
        t
    }

    /// Register a generator against the circuit.
    pub fn add_simple_generator(&mut self, g: Generator)
        ensures
            final(self).num_targets == old(self).num_targets,
            final(self).constraints@ == old(self).constraints@,
            final(self).generators@ == old(self).generators@.push(g),
    {
        self.generators.push(g);
    }

    /// Run every registered generator to completion, scheduling each as soon
    /// as its dependencies have values. On success every generator has run
    /// and its outcome holds of the witness; the scheduler fails fatally when
    /// no unrun generator can make progress (a dependency cycle or omitted
    /// wiring) or when a generator itself fails.
    pub fn generate_witness(&self, w: &mut Witness) -> (res: Result<(), CircuitError>)
        requires
            wit_wf(old(w)@),
        ensures
            wit_wf(final(w)@),
            wit_extends(final(w)@, old(w)@),
            res is Ok ==> forall|i: int| 0 <= i < self.generators@.len()
                ==> gen_post(#[trigger] self.generators@[i], final(w)@),
            all_generators_ready(self.generators@, old(w)@) ==> res is Ok,
    {
        let ghost all_ready = all_generators_ready(self.generators@, old(w)@);
        let n = self.generators.len();
        let mut done: Vec<bool> = Vec::new();
        let mut k: usize = 0;
        while k < n
            invariant
                k <= n,
                done@.len() == k,
                forall|q: int| 0 <= q < k as int ==> !(#[trigger] done@[q]),
            decreases n - k,
        {
            done.push(false);
            k = k + 1;
        }
        proof {
            lemma_count_done_zero(done@, n as int);
        }
        let mut remaining = n;
        while remaining > 0
            invariant
                n == self.generators@.len(),
                done@.len() == n,
                remaining <= n,
                wit_wf(w@),
                wit_extends(w@, old(w)@),
                all_ready == all_generators_ready(self.generators@, old(w)@),
                all_ready ==> forall|q: int| 0 <= q < n as int && !(#[trigger] done@[q])
                    ==> gen_ready(self.generators@[q], w@),
                forall|q: int| 0 <= q < n as int && #[trigger] done@[q]
                    ==> gen_post(self.generators@[q], w@),
                remaining as int == n - count_done(done@, n as int),
            decreases remaining,
        {
            let ghost rem0 = remaining;
            let mut progress = false;
            let mut i: usize = 0;
            while i < n
                invariant
                    n == self.generators@.len(),
                    done@.len() == n,
                    remaining <= n,
                    wit_wf(w@),
                    wit_extends(w@, old(w)@),
                    all_ready == all_generators_ready(self.generators@, old(w)@),
                    all_ready ==> forall|q: int| 0 <= q < n as int && !(#[trigger] done@[q])
                        ==> gen_ready(self.generators@[q], w@),
                    all_ready ==> forall|q: int| 0 <= q < i as int ==> #[trigger] done@[q],
                    forall|q: int| 0 <= q < n as int && #[trigger] done@[q]
                        ==> gen_post(self.generators@[q], w@),
                    remaining as int == n - count_done(done@, n as int),
                    progress ==> remaining < rem0,
                    !progress ==> remaining == rem0,
                    i <= n,
                decreases n - i,
            {
                if !done[i] {
                    proof {
                        lemma_count_done_lt(done@, n as int, i as int);
                    }
                    let ghost wpre = w@;
                    match run_generator(&self.generators[i], w) {
                        Ok(()) => {
                            proof {
                                lemma_count_done_set(done@, n as int, i as int);
                                assert forall|q: int| 0 <= q < n as int
                                    && #[trigger] done@.update(i as int, true)[q]
                                    implies gen_post(self.generators@[q], w@) by {
                                    if q != i as int {
                                        assert(done@[q]);
                                        lemma_gen_post_stable(self.generators@[q], wpre, w@);
                                    }
                                }
                                lemma_extends_trans(w@, wpre, old(w)@);
                                if all_ready {
                                    assert forall|q: int| 0 <= q < n as int
                                        && !(#[trigger] done@.update(i as int, true)[q])
                                        implies gen_ready(self.generators@[q], w@) by {
                                        assert(q != i as int && !done@[q]);
                                        assert forall|idx: int| 0 <= idx < wpre.len()
                                            && w@[idx] != wpre[idx]
                                            implies !gen_writes(
                                                self.generators@[q],
                                                idx,
                                            ) by {
                                            assert(gen_writes(self.generators@[i as int], idx));
                                        }
                                        lemma_gen_ready_stable(self.generators@[q], wpre, w@);
                                    }
                                }
                            }
                            done.set(i, true);
                            remaining = remaining - 1;
                            progress = true;
                        },
                        Err(er) => {
                            proof {
                                lemma_extends_trans(w@, wpre, old(w)@);
                                assert forall|q: int| 0 <= q < n as int && #[trigger] done@[q]
                                    implies gen_post(self.generators@[q], w@) by {
                                    lemma_gen_post_stable(self.generators@[q], wpre, w@);
                                }
                                if all_ready {
                                    assert(gen_ready(self.generators@[i as int], wpre));
                                    assert(false);
                                }
                            }
                            if !matches!(er, CircuitError::UnassignedTarget) {
                                return Err(er);
                            }
                            // Not ready yet: no write precedes this error, so
                            // the generator is retried on a later pass.
                        },
                    }
                }
                i = i + 1;
            }
            if !progress {
                proof {
                    if all_ready {
                        lemma_count_done_full(done@, n as int);
                        assert(false);
                    }
                }
                return Err(CircuitError::MissingDependency);
            }
        }
        proof {
            lemma_count_done_all(done@, n as int);
            assert forall|q: int| 0 <= q < n as int
                implies gen_post(#[trigger] self.generators@[q], w@) by {
                assert(done@[q]);
            }
        }
        Ok(())
    }
}

impl InsertionGate {
    /// Re-express this gate's constraints in-circuit, for recursive proof
    /// composition: the same expressions as `eval_unfiltered`,
    /// operand-for-operand, built from field-arithmetic rows over the row's
    /// wire targets. In every witness satisfying the appended rows, the
    /// returned target of constraint `7 * r + j` holds exactly the value of
    /// `round_constraint(vec_size, <embedded wire values>, r, j)`, and the
    /// last target the closing accumulator constraint.
    #[verifier::rlimit(100)]
    pub fn eval_unfiltered_recursively(
        &self,
        builder: &mut CircuitBuilder,
        wire_targets: &Vec<Target>,
    ) -> (res: Result<Vec<Target>, CircuitError>)
        requires
            gate_wf(*self),
            old(builder).num_targets + 20 * (self.vec_size as int + 2) <= usize::MAX,
        ensures
            res is Err <==> wire_targets@.len() != gate_num_wires(self.vec_size as int),
            res is Err ==> res == Err::<Vec<Target>, CircuitError>(CircuitError::ShapeMismatch)
                && *final(builder) == *old(builder),
            final(builder).constraints@.len() >= old(builder).constraints@.len(),
            final(builder).generators@.len() >= old(builder).generators@.len(),
            final(builder).constraints@.take(old(builder).constraints@.len() as int)
                == old(builder).constraints@,
            final(builder).generators@.take(old(builder).generators@.len() as int)
                == old(builder).generators@,
            res matches Ok(r) ==> r@.len() == 7 * (self.vec_size as int + 1) + 1
                && forall|w: Seq<Option<u64>>|
                    #[trigger] constraints_hold_from(
                        final(builder).constraints@,
                        old(builder).constraints@.len() as int,
                        w,
                    ) ==> (forall|r2: int, j2: int| 0 <= r2 <= self.vec_size as int && 0 <= j2 < 7
                        ==> embed(tv(w, r@[7 * r2 + j2])) == #[trigger] round_constraint(
                            self.vec_size as int,
                            crate::insertion::target_row_vars(w, wire_targets@),
                            r2,
                            j2,
                        ))
                        && embed(tv(w, r@[7 * (self.vec_size as int + 1)])) == esub(
                            crate::insertion::target_row_vars(w, wire_targets@)[
                                crate::insertion::idx_round_wire(
                                    self.vec_size as int,
                                    self.vec_size as int,
                                    crate::insertion::ROUND_ALREADY_INSERTED as int,
                                )
                            ],
                            embed(1),
                        ),
    {
        let vs = self.vec_size;
        let ghost vsi = vs as int;
        let nw = self.num_wires();
        if wire_targets.len() != nw {
            proof {
                assert(builder.constraints@.take(builder.constraints@.len() as int)
                    =~= builder.constraints@);
                assert(builder.generators@.take(builder.generators@.len() as int)
                    =~= builder.generators@);
            }
            return Err(CircuitError::ShapeMismatch);
        }
        let ghost start = builder.constraints@.len() as int;
        let ghost gstart = builder.generators@.len() as int;
        let ghost wts = wire_targets@;
        let kt = wire_targets[0];
        let et = wire_targets[1];
        let onet = builder.add_constant(1);
        proof {
            assert(builder.constraints@.take(start) =~= old(builder).constraints@);
            assert(builder.generators@.take(gstart) =~= old(builder).generators@);
        }
        let mut res: Vec<Target> = Vec::new();
        let mut r: usize = 0;
        while r <= vs
            invariant
                gate_wf(*self),
                vs == self.vec_size,
                vsi == vs as int,
                wts == wire_targets@,
                wts.len() == gate_num_wires(vsi),
                kt == wts[0],
                et == wts[1],
                r <= vs + 1,
                res@.len() == 7 * r,
                old(builder).num_targets + 20 * (vsi + 2) <= usize::MAX,
                builder.num_targets <= old(builder).num_targets + 1 + 20 * (r as int),
                start == old(builder).constraints@.len() as int,
                gstart == old(builder).generators@.len() as int,
                builder.constraints@.len() >= start + 1,
                builder.generators@.len() >= gstart,
                builder.constraints@.take(start) == old(builder).constraints@,
                builder.generators@.take(gstart) == old(builder).generators@,
                builder.constraints@[start] == (Constraint::ConstantVal { t: onet, value: 1 }),
                forall|w: Seq<Option<u64>>|
                    #[trigger] constraints_hold_from(builder.constraints@, start, w)
                        ==> forall|r2: int, j2: int| 0 <= r2 < r as int && 0 <= j2 < 7
                            ==> embed(tv(w, res@[7 * r2 + j2])) == #[trigger] round_constraint(
                                vsi,
                                crate::insertion::target_row_vars(w, wts),
                                r2,
                                j2,
                            ),
            decreases vs + 1 - r,
        {
            let ghost cs_pre = builder.constraints@;
            let ghost ri = r as int;
            proof {
                assert(6 * r <= 6 * vs) by (nonlinear_arith)
                    requires r <= vs;
                assert(20 * (ri) + 20 <= 20 * (vsi + 1)) by (nonlinear_arith)
                    requires ri <= vsi;
            }
            let base_r = 2 * vs + 3 + 6 * r;
            let iht = wire_targets[base_r];
            let dt = wire_targets[base_r + 1];
            let nit = wire_targets[base_r + 2];
            let npot = wire_targets[base_r + 3];
            let ait = wire_targets[base_r + 4];
            let nait = wire_targets[base_r + 5];
            let outt = wire_targets[vs + 2 + r];
            proof {
                assert(r < FIELD_ORDER);
            }
            let rt = builder.add_constant(r as u64);
            let ghost p_rt = builder.constraints@.len() - 1;
            let diff_t = builder.field_arith(ArithOp::SubMod, rt, kt);
            let ghost p_diff = builder.constraints@.len() - 1;
            let t1 = builder.field_arith(ArithOp::MulMod, dt, diff_t);
            let ghost p_t1 = builder.constraints@.len() - 1;
            let t2 = builder.field_arith(ArithOp::SubMod, onet, iht);
            let ghost p_t2 = builder.constraints@.len() - 1;
            let c0t = builder.field_arith(ArithOp::SubMod, t1, t2);
            let ghost p_c0 = builder.constraints@.len() - 1;
            let c1t = builder.field_arith(ArithOp::MulMod, iht, diff_t);
            let ghost p_c1 = builder.constraints@.len() - 1;
            let m2 = builder.field_arith(ArithOp::MulMod, iht, et);
            let ghost p_m2 = builder.constraints@.len() - 1;
            let c2t = builder.field_arith(ArithOp::SubMod, nit, m2);
            let ghost p_c2 = builder.constraints@.len() - 1;
            let mut m3t = onet;
            let mut a3t = onet;
            let c3t = if r == 0 {
                builder.field_arith(ArithOp::SubMod, npot, nit)
            } else {
                m3t = builder.field_arith(
                    ArithOp::MulMod,
                    wire_targets[base_r - 6 + 4],
                    wire_targets[r + 1],
                );
                a3t = builder.field_arith(ArithOp::AddMod, nit, m3t);
                builder.field_arith(ArithOp::SubMod, npot, a3t)
            };
            let ghost p_m3 = builder.constraints@.len() - 3;
            let ghost p_a3 = builder.constraints@.len() - 2;
            let ghost p_c3 = builder.constraints@.len() - 1;
            let mut a4t = onet;
            let c4t = if r == 0 {
                builder.field_arith(ArithOp::SubMod, ait, iht)
            } else {
                a4t = builder.field_arith(ArithOp::AddMod, wire_targets[base_r - 6 + 4], iht);
                builder.field_arith(ArithOp::SubMod, ait, a4t)
            };
            let ghost p_a4 = builder.constraints@.len() - 2;
            let ghost p_c4 = builder.constraints@.len() - 1;
            let s5 = builder.field_arith(ArithOp::SubMod, onet, ait);
            let ghost p_s5 = builder.constraints@.len() - 1;
            let c5t = builder.field_arith(ArithOp::SubMod, nait, s5);
            let ghost p_c5 = builder.constraints@.len() - 1;
            let mut m6t = onet;
            let mut a6t = onet;
            let c6t = if r < vs {
                m6t = builder.field_arith(ArithOp::MulMod, nait, wire_targets[r + 2]);
                a6t = builder.field_arith(ArithOp::AddMod, npot, m6t);
                builder.field_arith(ArithOp::SubMod, outt, a6t)
            } else {
                builder.field_arith(ArithOp::SubMod, outt, npot)
            };
            let ghost p_m6 = builder.constraints@.len() - 3;
            let ghost p_a6 = builder.constraints@.len() - 2;
            let ghost p_c6 = builder.constraints@.len() - 1;
            res.push(c0t);
            res.push(c1t);
            res.push(c2t);
            res.push(c3t);
            res.push(c4t);
            res.push(c5t);
            res.push(c6t);
            proof {
                assert(builder.constraints@.take(start) =~= old(builder).constraints@);
                assert(builder.generators@.take(gstart) =~= old(builder).generators@);
                let cs = builder.constraints@;
                let b_idx = crate::insertion::idx_round_wire(vsi, ri, 0);
                assert forall|w: Seq<Option<u64>>|
                    #[trigger] constraints_hold_from(cs, start, w)
                    implies forall|r2: int, j2: int| 0 <= r2 < ri + 1 && 0 <= j2 < 7
                        ==> embed(tv(w, res@[7 * r2 + j2])) == #[trigger] round_constraint(
                            vsi,
                            crate::insertion::target_row_vars(w, wts),
                            r2,
                            j2,
                        ) by {
                    assert(constraints_hold_from(cs_pre, start, w)) by {
                        assert forall|k2: int| start <= k2 < cs_pre.len()
                            implies constraint_holds(#[trigger] cs_pre[k2], w) by {
                            assert(cs_pre[k2] == cs[k2]);
                        }
                    }
                    let tvars = crate::insertion::target_row_vars(w, wts);
                    assert(constraint_holds(cs[start], w));
                    assert(tv(w, onet) == 1);
                    assert(constraint_holds(cs[p_rt], w));
                    assert(constraint_holds(cs[p_diff], w));
                    assert(constraint_holds(cs[p_t1], w));
                    assert(constraint_holds(cs[p_t2], w));
                    assert(constraint_holds(cs[p_c0], w));
                    assert(constraint_holds(cs[p_c1], w));
                    assert(constraint_holds(cs[p_m2], w));
                    assert(constraint_holds(cs[p_c2], w));
                    assert(constraint_holds(cs[p_c3], w));
                    assert(constraint_holds(cs[p_c4], w));
                    assert(constraint_holds(cs[p_s5], w));
                    assert(constraint_holds(cs[p_c5], w));
                    assert(constraint_holds(cs[p_c6], w));
                    if ri > 0 {
                        assert(constraint_holds(cs[p_m3], w));
                        assert(constraint_holds(cs[p_a3], w));
                        assert(constraint_holds(cs[p_a4], w));
                    }
                    if ri < vsi {
                        assert(constraint_holds(cs[p_m6], w));
                        assert(constraint_holds(cs[p_a6], w));
                    }
                    assert(tv(w, rt) == ri && tv(w, rt) < fp());
                    let kv = tv(w, kt);
                    let ev = tv(w, et);
                    let ihv = tv(w, iht);
                    let dv = tv(w, dt);
                    let niv = tv(w, nit);
                    let npov = tv(w, npot);
                    let aiv = tv(w, ait);
                    let naiv = tv(w, nait);
                    let outv = tv(w, outt);
                    crate::extension::lemma_embed_sub(ri, kv);
                    crate::extension::lemma_embed_mul(dv, tv(w, diff_t));
                    crate::extension::lemma_embed_sub(1, ihv);
                    crate::extension::lemma_embed_sub(tv(w, t1), tv(w, t2));
                    crate::extension::lemma_embed_mul(ihv, tv(w, diff_t));
                    crate::extension::lemma_embed_mul(ihv, ev);
                    crate::extension::lemma_embed_sub(niv, tv(w, m2));
                    crate::extension::lemma_embed_sub(1, aiv);
                    crate::extension::lemma_embed_sub(naiv, tv(w, s5));
                    assert(tvars[crate::insertion::idx_insertion_index()] == embed(kv));
                    assert(tvars[crate::insertion::idx_element_to_insert()] == embed(ev));
                    assert(tvars[b_idx] == embed(ihv));
                    assert(tvars[b_idx + 1] == embed(dv));
                    assert(tvars[b_idx + 2] == embed(niv));
                    assert(tvars[b_idx + 3] == embed(npov));
                    assert(tvars[b_idx + 4] == embed(aiv));
                    assert(tvars[b_idx + 5] == embed(naiv));
                    assert(tvars[crate::insertion::idx_output_list_item(vsi, ri)] == embed(outv));
                    if ri > 0 {
                        let apv = tv(w, wts[b_idx - 6 + 4]);
                        let lpv = tv(w, wts[ri + 1]);
                        assert(tvars[crate::insertion::idx_round_wire(vsi, ri - 1, 4)]
                            == embed(apv));
                        assert(tvars[crate::insertion::idx_list_item(ri - 1)] == embed(lpv));
                        crate::extension::lemma_embed_mul(apv, lpv);
                        crate::extension::lemma_embed_add(niv, tv(w, m3t));
                        crate::extension::lemma_embed_sub(npov, tv(w, a3t));
                        crate::extension::lemma_embed_add(apv, ihv);
                        crate::extension::lemma_embed_sub(aiv, tv(w, a4t));
                    }
                    assert(round_constraint(vsi, tvars, ri, 0) == embed(tv(w, c0t)));
                    assert(round_constraint(vsi, tvars, ri, 1) == embed(tv(w, c1t)));
                    assert(round_constraint(vsi, tvars, ri, 2) == embed(tv(w, c2t)));
                    if ri == 0 {
                        assert(round_constraint(vsi, tvars, ri, 3) == embed(tv(w, c3t)));
                        assert(round_constraint(vsi, tvars, ri, 4) == embed(tv(w, c4t)));
                    } else {
                        assert(round_constraint(vsi, tvars, ri, 3) == embed(tv(w, c3t)));
                        assert(round_constraint(vsi, tvars, ri, 4) == embed(tv(w, c4t)));
                    }
                    assert(round_constraint(vsi, tvars, ri, 5) == embed(tv(w, c5t)));
                    if ri < vsi {
                        let lcv = tv(w, wts[ri + 2]);
                        assert(tvars[crate::insertion::idx_list_item(ri)] == embed(lcv));
                        crate::extension::lemma_embed_mul(naiv, lcv);
                        crate::extension::lemma_embed_add(npov, tv(w, m6t));
                        crate::extension::lemma_embed_sub(outv, tv(w, a6t));
                        assert(round_constraint(vsi, tvars, ri, 6) == embed(tv(w, c6t)));
                    } else {
                        crate::extension::lemma_embed_sub(outv, npov);
                        assert(round_constraint(vsi, tvars, ri, 6) == embed(tv(w, c6t)));
                    }
                    assert forall|r2: int, j2: int| 0 <= r2 < ri + 1 && 0 <= j2 < 7
                        implies embed(tv(w, res@[7 * r2 + j2])) == #[trigger] round_constraint(
                            vsi,
                            crate::insertion::target_row_vars(w, wts),
                            r2,
                            j2,
                        ) by {
                        if r2 < ri {
                            assert(res@[7 * r2 + j2] == res@.subrange(0, 7 * ri)[7 * r2 + j2]);
                        } else {
                            assert(res@[7 * ri + 0] == c0t);
                            assert(res@[7 * ri + 1] == c1t);
                            assert(res@[7 * ri + 2] == c2t);
                            assert(res@[7 * ri + 3] == c3t);
                            assert(res@[7 * ri + 4] == c4t);
                            assert(res@[7 * ri + 5] == c5t);
                            assert(res@[7 * ri + 6] == c6t);
                        }
                    }
                }
            }
            r = r + 1;
        }
        // The closing accumulator constraint.
        let ai_last = wire_targets[2 * vs + 3 + 6 * vs + 4];
        let ghost cs_pre2 = builder.constraints@;
        let c7t = builder.field_arith(ArithOp::SubMod, ai_last, onet);
        res.push(c7t);
        proof {
            assert(builder.constraints@.take(start) =~= old(builder).constraints@);
            assert(builder.generators@.take(gstart) =~= old(builder).generators@);
            let cs = builder.constraints@;
            assert forall|w: Seq<Option<u64>>|
                #[trigger] constraints_hold_from(cs, start, w)
                implies (forall|r2: int, j2: int| 0 <= r2 <= vsi && 0 <= j2 < 7
                    ==> embed(tv(w, res@[7 * r2 + j2])) == #[trigger] round_constraint(
                        vsi,
                        crate::insertion::target_row_vars(w, wts),
                        r2,
                        j2,
                    ))
                    && embed(tv(w, res@[7 * (vsi + 1)])) == esub(
                        crate::insertion::target_row_vars(w, wts)[
                            crate::insertion::idx_round_wire(vsi, vsi, 4)
                        ],
                        embed(1),
                    ) by {
                assert(constraints_hold_from(cs_pre2, start, w)) by {
                    assert forall|k2: int| start <= k2 < cs_pre2.len()
                        implies constraint_holds(#[trigger] cs_pre2[k2], w) by {
                        assert(cs_pre2[k2] == cs[k2]);
                    }
                }
                assert(constraint_holds(cs[cs.len() - 1], w));
                assert(constraint_holds(cs[start], w));
                assert(tv(w, onet) == 1);
                let alv = tv(w, ai_last);
                crate::extension::lemma_embed_sub(alv, 1);
                assert(crate::insertion::target_row_vars(w, wts)[
                    crate::insertion::idx_round_wire(vsi, vsi, 4)
                ] == embed(alv));
                assert forall|r2: int, j2: int| 0 <= r2 <= vsi && 0 <= j2 < 7
                    implies embed(tv(w, res@[7 * r2 + j2])) == #[trigger] round_constraint(
                        vsi,
                        crate::insertion::target_row_vars(w, wts),
                        r2,
                        j2,
                    ) by {
                    assert(res@[7 * r2 + j2] == res@.subrange(0, 7 * (vsi + 1))[7 * r2 + j2]);
                }
            }
        }
        Ok(res)
    }

    /// Bind this gate's reusable generator logic to a concrete row.
    pub fn generators(&self, base: usize) -> (r: Vec<Generator>)
        ensures
            r@ == seq![(Generator::InsertionRow { gate: *self, base })],
    {
        let mut r: Vec<Generator> = Vec::new();
        r.push(Generator::InsertionRow { gate: *self, base });
        proof {
            assert(r@ =~= seq![(Generator::InsertionRow { gate: *self, base })]);
        }
        r
    }
}

/// A still-unrun generator keeps the count strictly below `n`.
proof fn lemma_count_done_lt(done: Seq<bool>, n: int, i: int)
    requires
        0 <= i < n <= done.len(),
        !done[i],
    ensures
        count_done(done, n) < n,
    decreases n,
{
    if n - 1 == i {
        lemma_count_done_le(done, n - 1);
    } else {
        lemma_count_done_lt(done, n - 1, i);
    }
}

/// An unrun vector counts zero.
proof fn lemma_count_done_zero(done: Seq<bool>, n: int)
    requires
        0 <= n <= done.len(),
        forall|q: int| 0 <= q < n ==> !done[q],
    ensures
        count_done(done, n) == 0,
    decreases n,
{
    if n > 0 {
        lemma_count_done_zero(done, n - 1);
    }
}

/// Decide whether one constraint is satisfied by the (fully or partially)
/// populated witness.
fn constraint_satisfied(c: &Constraint, w: &Witness) -> (b: bool)
    ensures
        b == constraint_holds(*c, w@),
{
    match c {
        Constraint::U32Range { t } => {
            match read_limb(w, *t) {
                Ok(_) => true,
                Err(_) => false,
            }
        },
        Constraint::ConstantVal { t, value } => {
            match w.try_get(*t) {
                Ok(v) => v == *value,
                Err(_) => false,
            }
        },
        Constraint::ConnectVals { a, b } => {
            match (w.try_get(*a), w.try_get(*b)) {
                (Ok(va), Ok(vb)) => va == vb,
                _ => false,
            }
        },
        Constraint::AssertZero { t } => {
            match w.try_get(*t) {
                Ok(v) => v == 0,
                Err(_) => false,
            }
        },
        Constraint::AssertOne { t } => {
            match w.try_get(*t) {
                Ok(v) => v == 1,
                Err(_) => false,
            }
        },
        Constraint::AddThreeU32 { a, b, c, out, carry } => {
            match (read_limb(w, *a), read_limb(w, *b), read_limb(w, *c), read_limb(w, *out),
                w.try_get(carry.0)) {
                (Ok(va), Ok(vb), Ok(vc), Ok(vo), Ok(vcar)) => vcar <= 2 && va + vb + vc == vo
                    + LIMB_BASE * vcar,
                _ => false,
            }
        },
        Constraint::SubU32 { a, b, borrow, out, borrow_out } => {
            match (read_limb(w, *a), read_limb(w, *b), w.try_get(borrow.0), read_limb(w, *out),
                w.try_get(borrow_out.0)) {
                (Ok(va), Ok(vb), Ok(vbr), Ok(vo), Ok(vbo)) => vbr <= 1 && vbo <= 1 && vo as i128
                    == va as i128 - vb as i128 - vbr as i128 + LIMB_BASE as i128 * vbo as i128,
                _ => false,
            }
        },
        Constraint::MulU32 { a, b, out_lo, out_hi } => {
            match (read_limb(w, *a), read_limb(w, *b), read_limb(w, *out_lo), read_limb(
                w,
                *out_hi,
            )) {
                (Ok(va), Ok(vb), Ok(vl), Ok(vh)) => {
                    proof {
                        assert((va as int) * (vb as int) < 0x1_0000_0000_0000_0000)
                            by (nonlinear_arith)
                            requires 0 <= va < LIMB_BASE, 0 <= vb < LIMB_BASE;
                    }
                    va * vb == vl + LIMB_BASE * vh
                },
                _ => false,
            }
        },
        Constraint::AddManyU32 { inputs, out, carry } => {
            let mut s: u128 = 0;
            let mut i: usize = 0;
            let mut all_ok = true;
            proof {
                assert(inputs@.take(0) =~= Seq::<U32Target>::empty());
            }
            while i < inputs.len()
                invariant
                    i <= inputs@.len(),
                    all_ok ==> s as int == sum_u32(w@, inputs@.take(i as int))
                        && s <= i * LIMB_BASE,
                    all_ok ==> forall|q: int| 0 <= q < i as int
                        ==> u32_ranged(w@, #[trigger] inputs@[q]),
                    !all_ok ==> !limbs_ranged(w@, inputs@),
                    *c == (Constraint::AddManyU32 { inputs: *inputs, out: *out, carry: *carry }),
                decreases inputs@.len() - i,
            {
                match read_limb(w, inputs[i]) {
                    Ok(v) => {
                        proof {
                            lemma_sum_u32_snoc(w@, inputs@.take(i as int), inputs@[i as int]);
                            assert(inputs@.take(i as int + 1) =~= inputs@.take(i as int).push(
                                inputs@[i as int],
                            ));
                            assert((i as int) * LIMB_BASE + LIMB_BASE == (i as int + 1)
                                * LIMB_BASE) by (nonlinear_arith);
                        }
                        if all_ok {
                            s = s + v as u128;
                        }
                    },
                    Err(_) => {
                        all_ok = false;
                    },
                }
                i = i + 1;
            }
            if !all_ok {
                return false;
            }
            proof {
                assert(inputs@.take(inputs@.len() as int) =~= inputs@);
            }
            match (read_limb(w, *out), read_limb(w, *carry)) {
                (Ok(vo), Ok(vc)) => s == vo as u128 + LIMB_BASE as u128 * vc as u128,
                _ => false,
            }
        },
        Constraint::ListLe { a, b, out } => {
            if a.len() != b.len() {
                return false;
            }
            let mut va: Vec<u64> = Vec::new();
            let mut i: usize = 0;
            while i < a.len()
                invariant
                    i <= a@.len(),
                    a@.len() == b@.len(),
                    va@.len() == i,
                    forall|q: int| 0 <= q < i as int
                        ==> u32_ranged(w@, #[trigger] a@[q]) && va@[q] as int == u32v(w@, a@[q]),
                    *c == (Constraint::ListLe { a: *a, b: *b, out: *out }),
                decreases a@.len() - i,
            {
                match read_limb(w, a[i]) {
                    Ok(v) => {
                        va.push(v);
                    },
                    Err(_) => {
                        proof {
                            assert(!u32_ranged(w@, a@[i as int]));
                        }
                        return false;
                    },
                }
                i = i + 1;
            }
            let mut vb: Vec<u64> = Vec::new();
            let mut j: usize = 0;
            while j < b.len()
                invariant
                    j <= b@.len(),
                    a@.len() == b@.len(),
                    vb@.len() == j,
                    forall|q: int| 0 <= q < j as int
                        ==> u32_ranged(w@, #[trigger] b@[q]) && vb@[q] as int == u32v(w@, b@[q]),
                    *c == (Constraint::ListLe { a: *a, b: *b, out: *out }),
                decreases b@.len() - j,
            {
                match read_limb(w, b[j]) {
                    Ok(v) => {
                        vb.push(v);
                    },
                    Err(_) => {
                        proof {
                            assert(!u32_ranged(w@, b@[j as int]));
                        }
                        return false;
                    },
                }
                j = j + 1;
            }
            proof {
                assert forall|q: int| 0 <= q < va@.len() implies #[trigger] va@[q] < LIMB_BASE by {
                    assert(u32_ranged(w@, a@[q]));
                }
                assert forall|q: int| 0 <= q < vb@.len() implies #[trigger] vb@[q] < LIMB_BASE by {
                    assert(u32_ranged(w@, b@[q]));
                }
                lemma_decoded_eq_vals(w@, a@, va@);
                lemma_decoded_eq_vals(w@, b@, vb@);
            }
            let le = limb_values_le(&va, &vb);
            match w.try_get(out.target) {
                Ok(v) => (v == 1) == le && v <= 1,
                Err(_) => false,
            }
        },
        Constraint::FieldArith { op, a, b, out } => {
            match (w.try_get(*a), w.try_get(*b), w.try_get(*out)) {
                (Ok(va), Ok(vb), Ok(vo)) => {
                    if va >= FIELD_ORDER || vb >= FIELD_ORDER || vo >= FIELD_ORDER {
                        return false;
                    }
                    let expect = match op {
                        ArithOp::AddMod => f_add(va, vb),
                        ArithOp::SubMod => f_sub(va, vb),
                        ArithOp::MulMod => f_mul(va, vb),
                    };
                    vo == expect
                },
                _ => false,
            }
        },
        Constraint::InsertionRow { vec_size, base } => {
            if *vec_size > crate::insertion::MAX_VEC_SIZE {
                return false;
            }
            let gate = InsertionGate::new(*vec_size);
            let nw = gate.num_wires();
            if *base > usize::MAX - nw {
                return false;
            }
            if nw > w.values.len() || *base > w.values.len() - nw {
                proof {
                    assert(!tset(w@, wire(*base as int, gate_num_wires(*vec_size as int) - 1)));
                }
                return false;
            }
            let mut vars: Vec<Ext> = Vec::new();
            let mut j: usize = 0;
            while j < nw
                invariant
                    j <= nw,
                    base + nw <= w@.len(),
                    base + nw <= usize::MAX,
                    gate_wf(gate),
                    gate.vec_size == vec_size,
                    *c == (Constraint::InsertionRow { vec_size: *vec_size, base: *base }),
                    nw as int == gate_num_wires(vec_size as int),
                    vars@.len() == j,
                    forall|q: int| 0 <= q < j as int
                        ==> tset(w@, #[trigger] wire(*base as int, q))
                            && ext_wf(vars@[q])
                            && ext_view(vars@[q]) == embed(tv(w@, wire(*base as int, q))),
                decreases nw - j,
            {
                match w.try_get(Target { index: *base + j }) {
                    Ok(v) => {
                        proof {
                            assert(Target { index: ((*base + j) as usize) } == wire(*base as int, j as int));
                        }
                        if v >= crate::field::FIELD_ORDER {
                            proof {
                                assert(tv(w@, wire(*base as int, j as int)) >= crate::field::fp());
                            }
                            return false;
                        }
                        vars.push(ext_from_base(v));
                    },
                    Err(_) => {
                        proof {
                            assert(Target { index: ((*base + j) as usize) } == wire(*base as int, j as int));
                            assert(!tset(w@, wire(*base as int, j as int)));
                        }
                        return false;
                    },
                }
                j = j + 1;
            }
            proof {
                assert(views_of(vars@) =~= row_vars(w@, *base as int, *vec_size as int));
                assert forall|q: int| 0 <= q < vars@.len() implies ext_wf(#[trigger] vars@[q]) by {
                    assert(tset(w@, wire(*base as int, q)));
                }
            }
            let res = gate.eval_unfiltered(&vars);
            let mut k: usize = 0;
            let nc = gate.num_constraints();
            while k < nc
                invariant
                    k <= nc,
                    nc as int == 7 * (vec_size as int + 1) + 1,
                    res@.len() == nc,
                    vec_size <= crate::insertion::MAX_VEC_SIZE,
                    base + gate_num_wires(*vec_size as int) <= usize::MAX,
                    *c == (Constraint::InsertionRow { vec_size: *vec_size, base: *base }),
                    views_of(vars@) == row_vars(w@, *base as int, *vec_size as int),
                    forall|r2: int, j2: int| 0 <= r2 <= vec_size as int && 0 <= j2 < 7
                        ==> ext_view(res@[7 * r2 + j2]) == #[trigger] round_constraint(
                            *vec_size as int,
                            views_of(vars@),
                            r2,
                            j2,
                        ),
                    ext_view(res@[7 * (vec_size as int + 1)]) == esub(
                        views_of(vars@)[crate::insertion::idx_round_wire(
                            *vec_size as int,
                            *vec_size as int,
                            crate::insertion::ROUND_ALREADY_INSERTED as int,
                        )],
                        embed(1),
                    ),
                    forall|q: int| 0 <= q < k as int
                        ==> ext_view(#[trigger] res@[q]) == ext_zero_view(),
                decreases nc - k,
            {
                let cval = res[k];
                if cval.c0 != 0 || cval.c1 != 0 {
                    proof {
                        let vsi = *vec_size as int;
                        assert(ext_view(res@[k as int]) != ext_zero_view());
                        if k as int == 7 * (vsi + 1) {
                            assert(!constraint_holds(*c, w@));
                        } else {
                            let r2 = k as int / 7;
                            let j2 = k as int % 7;
                            vstd::arithmetic::div_mod::lemma_fundamental_div_mod(k as int, 7);
                            vstd::arithmetic::div_mod::lemma_mod_bound(k as int, 7);
                            vstd::arithmetic::div_mod::lemma_multiply_divide_lt(
                                k as int, 7, vsi + 1,
                            );
                            vstd::arithmetic::div_mod::lemma_div_pos_is_pos(k as int, 7);
                            assert(round_constraint(
                                vsi,
                                row_vars(w@, *base as int, vsi),
                                r2,
                                j2,
                            ) != ext_zero_view());
                        }
                    }
                    return false;
                }
                k = k + 1;
            }
            proof {
                assert forall|r2: int, j2: int| 0 <= r2 <= *vec_size as int && 0 <= j2 < 7
                    implies #[trigger] round_constraint(
                        *vec_size as int,
                        row_vars(w@, *base as int, *vec_size as int),
                        r2,
                        j2,
                    ) == ext_zero_view() by {
                    assert(0 <= 7 * r2 + j2 < 7 * (*vec_size as int + 1)) by (nonlinear_arith)
                        requires 0 <= r2 <= *vec_size as int, 0 <= j2 < 7;
                    assert(ext_view(res@[7 * r2 + j2]) == ext_zero_view());
                }
                assert(ext_view(res@[7 * (*vec_size as int + 1)]) == ext_zero_view());
                assert forall|q: int| 0 <= q < gate_num_wires(*vec_size as int)
                    implies tv(w@, #[trigger] wire(*base as int, q)) < crate::field::fp() by {
                    assert(ext_wf(vars@[q]) && ext_view(vars@[q]) == embed(
                        tv(w@, wire(*base as int, q)),
                    ));
                }
            }
            true
        },
    }
}

impl CircuitBuilder {
    /// The self-check: after generation, every recorded constraint must be
    /// satisfied by the populated witness; any unsatisfied constraint is a
    /// fatal generator/constraint mismatch.
    pub fn check_constraints(&self, w: &Witness) -> (res: Result<(), CircuitError>)
        ensures
            res is Ok <==> constraints_hold_from(self.constraints@, 0, w@),
            res is Err ==> res == Err::<(), CircuitError>(CircuitError::UnsatisfiedConstraint),
    {
        let mut i: usize = 0;
        while i < self.constraints.len()
            invariant
                i <= self.constraints@.len(),
                forall|q: int| 0 <= q < i as int
                    ==> constraint_holds(#[trigger] self.constraints@[q], w@),
            decreases self.constraints@.len() - i,
        {
            if !constraint_satisfied(&self.constraints[i], w) {
                proof {
                    assert(!constraint_holds(self.constraints@[i as int], w@));
                }
                return Err(CircuitError::UnsatisfiedConstraint);
            }
            i = i + 1;
        }
        Ok(())
    }
}

/// Readiness survives other generators' runs, as long as none of them writes
/// into this generator's outputs.
proof fn lemma_gen_ready_stable(g: Generator, w1: Seq<Option<u64>>, w2: Seq<Option<u64>>)
    requires
        wit_extends(w2, w1),
        gen_ready(g, w1),
        forall|idx: int| 0 <= idx < w1.len() && w2[idx] != w1[idx] ==> !gen_writes(g, idx),
    ensures
        gen_ready(g, w2),
{
    match g {
        Generator::ConstantVal { out, value } => {
            assert(w2[out.index as int] == w1[out.index as int]);
        },
        Generator::AddThreeU32 { a, b, c, out, carry } => {
            lemma_extends_preserves(w2, w1, a.0);
            lemma_extends_preserves(w2, w1, b.0);
            lemma_extends_preserves(w2, w1, c.0);
            assert(w2[out.0.index as int] == w1[out.0.index as int]);
            assert(w2[carry.0.index as int] == w1[carry.0.index as int]);
        },
        Generator::SubU32 { a, b, borrow, out, borrow_out } => {
            lemma_extends_preserves(w2, w1, a.0);
            lemma_extends_preserves(w2, w1, b.0);
            lemma_extends_preserves(w2, w1, borrow.0);
            assert(w2[out.0.index as int] == w1[out.0.index as int]);
            assert(w2[borrow_out.0.index as int] == w1[borrow_out.0.index as int]);
        },
        Generator::MulU32 { a, b, out_lo, out_hi } => {
            lemma_extends_preserves(w2, w1, a.0);
            lemma_extends_preserves(w2, w1, b.0);
            assert(w2[out_lo.0.index as int] == w1[out_lo.0.index as int]);
            assert(w2[out_hi.0.index as int] == w1[out_hi.0.index as int]);
        },
        Generator::AddManyU32 { inputs, out, carry } => {
            assert forall|q: int| 0 <= q < inputs@.len()
                implies u32_ranged(w2, #[trigger] inputs@[q]) by {
                lemma_extends_preserves(w2, w1, inputs@[q].0);
            }
            assert(w2[out.0.index as int] == w1[out.0.index as int]);
            assert(w2[carry.0.index as int] == w1[carry.0.index as int]);
        },
        Generator::ListLe { a, b, out } => {
            assert forall|q: int| 0 <= q < a@.len()
                implies u32_ranged(w2, #[trigger] a@[q]) by {
                lemma_extends_preserves(w2, w1, a@[q].0);
            }
            assert forall|q: int| 0 <= q < b@.len()
                implies u32_ranged(w2, #[trigger] b@[q]) by {
                lemma_extends_preserves(w2, w1, b@[q].0);
            }
            assert(w2[out.target.index as int] == w1[out.target.index as int]);
        },
        Generator::FieldArith { op, a, b, out } => {
            lemma_extends_preserves(w2, w1, a);
            lemma_extends_preserves(w2, w1, b);
            assert(w2[out.index as int] == w1[out.index as int]);
        },
        Generator::BigUintDivRem { a, b, div, rem } => {
            assert forall|q: int| 0 <= q < a@.len()
                implies u32_ranged(w2, #[trigger] a@[q]) by {
                lemma_extends_preserves(w2, w1, a@[q].0);
            }
            assert forall|q: int| 0 <= q < b@.len()
                implies u32_ranged(w2, #[trigger] b@[q]) by {
                lemma_extends_preserves(w2, w1, b@[q].0);
            }
            lemma_decoded_stable(w2, w1, b@);
            assert forall|q: int| 0 <= q < div@.len()
                implies !tset(w2, (#[trigger] div@[q]).0) && (div@[q]).0.index < w2.len() by {
                assert(contains_limb_index(div@, div@[q].0.index as int));
                assert(w2[div@[q].0.index as int] == w1[div@[q].0.index as int]);
            }
            assert forall|q: int| 0 <= q < rem@.len()
                implies !tset(w2, (#[trigger] rem@[q]).0) && (rem@[q]).0.index < w2.len() by {
                assert(contains_limb_index(rem@, rem@[q].0.index as int));
                assert(w2[rem@[q].0.index as int] == w1[rem@[q].0.index as int]);
            }
        },
        Generator::InsertionRow { gate, base } => {
            let vs = gate.vec_size as int;
            let bs = base as int;
            assert forall|j: int| 0 <= j < vs + 2
                implies tset(w2, #[trigger] wire(bs, j)) by {
                lemma_extends_preserves(w2, w1, wire(bs, j));
            }
            lemma_extends_preserves(w2, w1, wire(bs, idx_insertion_index()));
            assert forall|j: int| vs + 2 <= j < gate_num_wires(vs)
                implies !tset(w2, #[trigger] wire(bs, j)) by {
                assert(gen_writes(g, bs + j));
                assert(w2[(bs + j) as int] == w1[(bs + j) as int]);
            }
        },
    }
}

/// Every generator is ready at once and no two write the same wire: the
/// degenerate schedule where each generator's inputs are already in the
/// witness. Chained generators become ready only as earlier ones run, which
/// this predicate does not cover.
pub open spec fn all_generators_ready(gens: Seq<Generator>, w: Seq<Option<u64>>) -> bool {
    &&& forall|i: int| 0 <= i < gens.len() ==> gen_ready(#[trigger] gens[i], w)
    &&& forall|i: int, j: int, idx: int|
        #![trigger gen_writes(gens[i], idx), gen_writes(gens[j], idx)]
        0 <= i < gens.len() && 0 <= j < gens.len() && i != j && gen_writes(gens[i], idx)
            ==> !gen_writes(gens[j], idx)
}

/// A fully run vector counts its whole length.
proof fn lemma_count_done_full(done: Seq<bool>, n: int)
    requires
        0 <= n <= done.len(),
        forall|q: int| 0 <= q < n ==> done[q],
    ensures
        count_done(done, n) == n,
    decreases n,
{
    if n > 0 {
        lemma_count_done_full(done, n - 1);
    }
}

/// How many of the first `n` generators have run.
pub open spec fn count_done(done: Seq<bool>, n: int) -> int
    decreases n,
{
    if n <= 0 {
        0
    } else {
        count_done(done, n - 1) + if done[n - 1] { 1int } else { 0int }
    }
}

proof fn lemma_count_done_le(done: Seq<bool>, n: int)
    requires
        0 <= n <= done.len(),
    ensures
        0 <= count_done(done, n) <= n,
    decreases n,
{
    if n > 0 {
        lemma_count_done_le(done, n - 1);
    }
}

/// Marking an unrun generator as run raises the count by one.
proof fn lemma_count_done_set(done: Seq<bool>, n: int, i: int)
    requires
        0 <= i < n <= done.len(),
        !done[i],
    ensures
        count_done(done.update(i, true), n) == count_done(done, n) + 1,
    decreases n,
{
    if n - 1 == i {
        lemma_count_done_same(done, done.update(i, true), n - 1);
    } else {
        lemma_count_done_set(done, n - 1, i);
    }
}

proof fn lemma_count_done_same(d1: Seq<bool>, d2: Seq<bool>, n: int)
    requires
        0 <= n <= d1.len(),
        n <= d2.len(),
        forall|q: int| 0 <= q < n ==> d1[q] == d2[q],
    ensures
        count_done(d1, n) == count_done(d2, n),
    decreases n,
{
    if n > 0 {
        lemma_count_done_same(d1, d2, n - 1);
    }
}

/// When the count reaches the length, every generator has run.
proof fn lemma_count_done_all(done: Seq<bool>, n: int)
    requires
        0 <= n <= done.len(),
        count_done(done, n) == n,
    ensures
        forall|q: int| 0 <= q < n ==> done[q],
    decreases n,
{
    if n > 0 {
        lemma_count_done_le(done, n - 1);
        lemma_count_done_all(done, n - 1);
    }
}

} // verus!
