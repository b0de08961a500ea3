//! The multi-limb unsigned-integer gadget: a `BigUintTarget` is an ordered,
//! least-significant-first list of 32-bit limb targets denoting
//! `sum limb[i] * 2^(32*i)`. Limb counts are fixed at construction, two
//! values of differing length may still be compared or connected (missing
//! high limbs of the shorter count as zero), and leading zero limbs are
//! legal. All operations compose the 32-bit carry-propagating rows of the
//! builder; only division registers a generator.

use vstd::prelude::*;
use crate::target::{U32Target, BoolTarget};
use crate::circuit::{CircuitBuilder, Constraint, Generator, LIMB_BASE, u32v, u32_ranged,
    limbs_ranged, decoded, dec_u64, pow_b, constraints_hold_from, constraint_holds,
    lemma_decoded_snoc, lemma_decoded_bound, lemma_sum_u32_snoc, sum_u32};
use crate::witness::{tv, tset};
use crate::CircuitError;

verus! {

/// An unsigned multi-precision integer in the circuit: little-endian 32-bit
/// limb targets.
#[derive(Clone, Debug)]
pub struct BigUintTarget {
    pub limbs: Vec<U32Target>,
}

impl BigUintTarget {
    pub fn num_limbs(&self) -> (n: usize)
        ensures
            n == self.limbs@.len(),
    {
        self.limbs.len()
    }

    pub fn get_limb(&self, i: usize) -> (t: U32Target)
        requires
            i < self.limbs@.len(),
        ensures
            t == self.limbs@[i as int],
    {
        self.limbs[i]
    }
}

/// Relies on `num::BigUint` (base-2^32 digits, least significant first) and
/// `num::Integer::div_rem`: the results denote the quotient and remainder of
/// the denoted values, and `to_u32_digits` returns minimal-length digit
/// lists, so the quotient needs no more limbs than the dividend and the
/// remainder no more than the divisor. `div_rem` panics on a zero divisor,
/// which the precondition rules out.
#[verifier::external_body]
pub(crate) fn div_rem_u32_limbs(a: &Vec<u64>, b: &Vec<u64>) -> (qr: (Vec<u64>, Vec<u64>))
    requires
        forall|i: int| 0 <= i < a@.len() ==> #[trigger] a@[i] < LIMB_BASE,
        forall|i: int| 0 <= i < b@.len() ==> #[trigger] b@[i] < LIMB_BASE,
        dec_u64(b@) > 0,
    ensures
        dec_u64(qr.0@) == dec_u64(a@) / dec_u64(b@),
        dec_u64(qr.1@) == dec_u64(a@) % dec_u64(b@),
        qr.0@.len() <= a@.len(),
        qr.1@.len() <= b@.len(),
        forall|i: int| 0 <= i < qr.0@.len() ==> #[trigger] qr.0@[i] < LIMB_BASE,
        forall|i: int| 0 <= i < qr.1@.len() ==> #[trigger] qr.1@[i] < LIMB_BASE,
{
    let ad: Vec<u32> = a.iter().map(|&x| x as u32).collect();
    let bd: Vec<u32> = b.iter().map(|&x| x as u32).collect();
    let abig = num::BigUint::new(ad);
    let bbig = num::BigUint::new(bd);
    let (q, r) = num::Integer::div_rem(&abig, &bbig);
    let qv: Vec<u64> = q.to_u32_digits().into_iter().map(|x| x as u64).collect();
    let rv: Vec<u64> = r.to_u32_digits().into_iter().map(|x| x as u64).collect();
    (qv, rv)
}

/// The integer denoted by a list of contribution rows: the limb values of
/// row `p` sum, weighted by the `p`-th power of the limb base.
pub open spec fn weighted_sum(w: Seq<Option<u64>>, rows: Seq<Vec<U32Target>>) -> int
    decreases rows.len(),
{
    if rows.len() == 0 {
        0
    } else {
        sum_u32(w, rows[0]@) + LIMB_BASE * weighted_sum(w, rows.drop_first())
    }
}

/// Appending a row adds its sum scaled by the base power of the old length.
proof fn lemma_ws_snoc(w: Seq<Option<u64>>, rows: Seq<Vec<U32Target>>, v: Vec<U32Target>)
    ensures
        weighted_sum(w, rows.push(v)) == weighted_sum(w, rows) + pow_b(rows.len()) * sum_u32(
            w,
            v@,
        ),
    decreases rows.len(),
{
    if rows.len() == 0 {
        assert(rows.push(v)[0] == v);
        assert(rows.push(v).drop_first() =~= Seq::<Vec<U32Target>>::empty());
        assert(LIMB_BASE * weighted_sum(w, rows.push(v).drop_first()) == 0);
        assert(1 * sum_u32(w, v@) == sum_u32(w, v@));
    } else {
        assert(rows.push(v).drop_first() =~= rows.drop_first().push(v));
        lemma_ws_snoc(w, rows.drop_first(), v);
        assert(LIMB_BASE * (weighted_sum(w, rows.drop_first()) + pow_b(rows.drop_first().len())
            * sum_u32(w, v@)) == LIMB_BASE * weighted_sum(w, rows.drop_first()) + (LIMB_BASE
            * pow_b(rows.drop_first().len())) * sum_u32(w, v@)) by (nonlinear_arith);
    }
}

/// Extending the taken prefix by one row adds that row's weighted sum.
proof fn lemma_ws_take_snoc(w: Seq<Option<u64>>, rows: Seq<Vec<U32Target>>, k: int)
    requires
        0 <= k < rows.len(),
    ensures
        weighted_sum(w, rows.take(k + 1)) == weighted_sum(w, rows.take(k)) + pow_b(k as nat)
            * sum_u32(w, rows[k]@),
{
    assert(rows.take(k + 1) =~= rows.take(k).push(rows[k]));
    lemma_ws_snoc(w, rows.take(k), rows[k]);
}

/// Pushing one limb onto row `p` adds its value at weight `pow_b(p)`.
proof fn lemma_ws_push_entry(
    w: Seq<Option<u64>>,
    rows1: Seq<Vec<U32Target>>,
    rows2: Seq<Vec<U32Target>>,
    p: int,
    t: U32Target,
)
    requires
        0 <= p < rows1.len(),
        rows2.len() == rows1.len(),
        rows2[p]@ == rows1[p]@.push(t),
        forall|q: int| 0 <= q < rows1.len() && q != p ==> rows2[q] == rows1[q],
    ensures
        weighted_sum(w, rows2) == weighted_sum(w, rows1) + pow_b(p as nat) * u32v(w, t),
    decreases p,
{
    if p == 0 {
        lemma_sum_u32_snoc(w, rows1[0]@, t);
        assert(rows2.drop_first() =~= rows1.drop_first());
        assert(1 * u32v(w, t) == u32v(w, t));
    } else {
        assert(rows2[0] == rows1[0]);
        assert(rows2.drop_first()[p - 1]@ == rows1.drop_first()[p - 1]@.push(t)) by {
            assert(rows2.drop_first()[p - 1] == rows2[p]);
            assert(rows1.drop_first()[p - 1] == rows1[p]);
        }
        assert forall|q: int| 0 <= q < rows1.drop_first().len() && q != p - 1
            implies rows2.drop_first()[q] == rows1.drop_first()[q] by {
            assert(rows2.drop_first()[q] == rows2[q + 1]);
            assert(rows1.drop_first()[q] == rows1[q + 1]);
        }
        lemma_ws_push_entry(w, rows1.drop_first(), rows2.drop_first(), p - 1, t);
        assert(LIMB_BASE * (weighted_sum(w, rows1.drop_first()) + pow_b((p - 1) as nat) * u32v(
            w,
            t,
        )) == LIMB_BASE * weighted_sum(w, rows1.drop_first()) + (LIMB_BASE * pow_b(
            (p - 1) as nat,
        )) * u32v(w, t)) by (nonlinear_arith);
    }
}

/// The generator is the division generator writing exactly these quotient and
/// remainder limbs.
pub open spec fn is_div_rem_generator(g: Generator, div: Seq<U32Target>, rem: Seq<U32Target>) -> bool {
    g matches Generator::BigUintDivRem { a: _, b: _, div: gd, rem: gr } && gd@ == div && gr@ == rem
}

/// Rows that are all empty sum to zero.
proof fn lemma_ws_all_empty(w: Seq<Option<u64>>, rows: Seq<Vec<U32Target>>)
    requires
        forall|q: int| 0 <= q < rows.len() ==> (#[trigger] rows[q])@ =~= Seq::<U32Target>::empty(),
    ensures
        weighted_sum(w, rows) == 0,
    decreases rows.len(),
{
    if rows.len() > 0 {
        assert(rows[0]@ =~= Seq::<U32Target>::empty());
        assert(sum_u32(w, rows[0]@) == 0);
        assert forall|q: int| 0 <= q < rows.drop_first().len()
            implies (#[trigger] rows.drop_first()[q])@ =~= Seq::<U32Target>::empty() by {
            assert(rows.drop_first()[q] == rows[q + 1]);
        }
        lemma_ws_all_empty(w, rows.drop_first());
    }
}

/// Base powers multiply when exponents add.
proof fn lemma_pow_b_add(m: nat, n: nat)
    ensures
        pow_b(m + n) == pow_b(m) * pow_b(n),
    decreases m,
{
    if m == 0 {
        assert(1 * pow_b(n) == pow_b(n));
    } else {
        lemma_pow_b_add((m - 1) as nat, n);
        assert(LIMB_BASE * (pow_b((m - 1) as nat) * pow_b(n)) == (LIMB_BASE * pow_b(
            (m - 1) as nat,
        )) * pow_b(n)) by (nonlinear_arith);
    }
}

impl CircuitBuilder {
    /// A fresh multi-precision value of `num_limbs` range-constrained limbs.
    pub fn add_virtual_biguint_target(&mut self, num_limbs: usize) -> (r: BigUintTarget)
        requires
            old(self).num_targets + num_limbs <= usize::MAX,
        ensures
            r.limbs@.len() == num_limbs,
            forall|i: int| 0 <= i < num_limbs
                ==> (#[trigger] r.limbs@[i]).0.index == old(self).num_targets + i,
            final(self).num_targets == old(self).num_targets + num_limbs,
            final(self).constraints@.len() == old(self).constraints@.len() + num_limbs,
            final(self).constraints@.take(old(self).constraints@.len() as int)
                == old(self).constraints@,
            final(self).generators@ == old(self).generators@,
            forall|w: Seq<Option<u64>>|
                #[trigger] constraints_hold_from(
                    final(self).constraints@,
                    old(self).constraints@.len() as int,
                    w,
                ) ==> limbs_ranged(w, r.limbs@),
    {
        let ghost start = self.constraints@.len() as int;
        let mut limbs: Vec<U32Target> = Vec::new();
        let mut i: usize = 0;
        while i < num_limbs
            invariant
                i <= num_limbs,
                old(self).num_targets + num_limbs <= usize::MAX,
                self.num_targets == old(self).num_targets + i,
                start == old(self).constraints@.len() as int,
                self.constraints@.len() == start + i,
                self.constraints@.take(start) == old(self).constraints@,
                self.generators@ == old(self).generators@,
                limbs@.len() == i,
                forall|q: int| 0 <= q < i as int
                    ==> (#[trigger] limbs@[q]).0.index == old(self).num_targets + q,
                forall|q: int| 0 <= q < i as int
                    ==> self.constraints@[start + q] == (Constraint::U32Range {
                        t: limbs@[q],
                    }),
            decreases num_limbs - i,
        {
            let t = self.add_virtual_u32_target();
            limbs.push(t);
            proof {
                assert(self.constraints@.take(start) =~= old(self).constraints@);
            }
            i = i + 1;
        }
        proof {
            assert forall|w: Seq<Option<u64>>|
                #[trigger] constraints_hold_from(self.constraints@, start, w)
                implies limbs_ranged(w, limbs@) by {
                assert forall|q: int| 0 <= q < limbs@.len()
                    implies u32_ranged(w, #[trigger] limbs@[q]) by {
                    assert(constraint_holds(self.constraints@[start + q], w));
                }
            }
        }
        BigUintTarget { limbs }
    }

    /// Extend both operands to equal limb count by appending limbs
    /// constrained to zero to the shorter one, so that later rows read real
    /// values rather than unconstrained wires.
    pub fn pad_biguints(&mut self, a: &BigUintTarget, b: &BigUintTarget) -> (r: (
        BigUintTarget,
        BigUintTarget,
    ))
        requires
            old(self).num_targets + a.limbs@.len() + b.limbs@.len() <= usize::MAX,
        ensures
            r.0.limbs@.len() == r.1.limbs@.len(),
            r.0.limbs@.len() == if a.limbs@.len() >= b.limbs@.len() {
                a.limbs@.len()
            } else {
                b.limbs@.len()
            },
            r.0.limbs@.take(a.limbs@.len() as int) == a.limbs@,
            r.1.limbs@.take(b.limbs@.len() as int) == b.limbs@,
            a.limbs@.len() >= b.limbs@.len() ==> r.0.limbs@ == a.limbs@,
            b.limbs@.len() >= a.limbs@.len() ==> r.1.limbs@ == b.limbs@,
            a.limbs@.len() == b.limbs@.len() ==> final(self).num_targets == old(self).num_targets
                && final(self).constraints@ == old(self).constraints@
                && final(self).generators@ == old(self).generators@,
            final(self).num_targets <= old(self).num_targets + a.limbs@.len() + b.limbs@.len(),
            final(self).constraints@.len() >= old(self).constraints@.len(),
            final(self).generators@.len() >= old(self).generators@.len(),
            final(self).constraints@.take(old(self).constraints@.len() as int)
                == old(self).constraints@,
            final(self).generators@.take(old(self).generators@.len() as int)
                == old(self).generators@,
            forall|w: Seq<Option<u64>>|
                #[trigger] constraints_hold_from(
                    final(self).constraints@,
                    old(self).constraints@.len() as int,
                    w,
                ) ==> decoded(w, r.0.limbs@) == decoded(w, a.limbs@)
                    && decoded(w, r.1.limbs@) == decoded(w, b.limbs@)
                    && (limbs_ranged(w, a.limbs@) ==> limbs_ranged(w, r.0.limbs@))
                    && (limbs_ranged(w, b.limbs@) ==> limbs_ranged(w, r.1.limbs@)),
    {
        let ghost start = self.constraints@.len() as int;
        let n = if a.num_limbs() >= b.num_limbs() {
            a.num_limbs()
        } else {
            b.num_limbs()
        };
        let pa = self.pad_to(a, n);
        let ghost mid = self.constraints@.len() as int;
        let pb = self.pad_to(b, n);
        proof {
            assert forall|w: Seq<Option<u64>>|
                #[trigger] constraints_hold_from(self.constraints@, start, w)
                implies decoded(w, pa.limbs@) == decoded(w, a.limbs@)
                    && decoded(w, pb.limbs@) == decoded(w, b.limbs@)
                    && (limbs_ranged(w, a.limbs@) ==> limbs_ranged(w, pa.limbs@))
                    && (limbs_ranged(w, b.limbs@) ==> limbs_ranged(w, pb.limbs@)) by {
                assert(constraints_hold_from(self.constraints@.take(mid), start, w)) by {
                    assert forall|k: int| start <= k < self.constraints@.take(mid).len()
                        implies constraint_holds(
                            #[trigger] self.constraints@.take(mid)[k],
                            w,
                        ) by {
                        assert(self.constraints@.take(mid)[k] == self.constraints@[k]);
                    }
                }
                assert(constraints_hold_from(self.constraints@, mid, w));
            }
        }
        (pa, pb)
    }

    /// Zero-extend one value to `n` limbs with constant-zero limbs.
    fn pad_to(&mut self, a: &BigUintTarget, n: usize) -> (r: BigUintTarget)
        requires
            a.limbs@.len() <= n,
            old(self).num_targets + n <= usize::MAX + a.limbs@.len(),
        ensures
            r.limbs@.len() == n,
            r.limbs@.take(a.limbs@.len() as int) == a.limbs@,
            n == a.limbs@.len() ==> r.limbs@ == a.limbs@ && final(self).constraints@ == old(
                self,
            ).constraints@ && final(self).generators@ == old(self).generators@,
            final(self).num_targets == old(self).num_targets + n - a.limbs@.len(),
            final(self).constraints@.len() == old(self).constraints@.len() + n - a.limbs@.len(),
            final(self).generators@.len() == old(self).generators@.len() + n - a.limbs@.len(),
            final(self).constraints@.take(old(self).constraints@.len() as int)
                == old(self).constraints@,
            final(self).generators@.take(old(self).generators@.len() as int)
                == old(self).generators@,
            forall|w: Seq<Option<u64>>|
                #[trigger] constraints_hold_from(
                    final(self).constraints@,
                    old(self).constraints@.len() as int,
                    w,
                ) ==> decoded(w, r.limbs@) == decoded(w, a.limbs@)
                    && (limbs_ranged(w, a.limbs@) ==> limbs_ranged(w, r.limbs@)),
    {
        let ghost start = self.constraints@.len() as int;
        let na = a.num_limbs();
        let mut limbs: Vec<U32Target> = Vec::new();
        let mut i: usize = 0;
        while i < na
            invariant
                na == a.limbs@.len(),
                i <= na,
                self.num_targets == old(self).num_targets,
                self.constraints@ == old(self).constraints@,
                self.generators@ == old(self).generators@,
                limbs@ == a.limbs@.take(i as int),
            decreases na - i,
        {
            limbs.push(a.get_limb(i));
            proof {
                assert(limbs@ =~= a.limbs@.take(i as int + 1));
            }
            i = i + 1;
        }
        proof {
            assert(a.limbs@.take(na as int) =~= a.limbs@);
            assert(self.constraints@.take(start) =~= old(self).constraints@);
            assert(self.generators@.take(old(self).generators@.len() as int) =~= old(
                self,
            ).generators@);
            assert(limbs@.take(na as int) =~= a.limbs@);
        }
        while i < n
            invariant
                na == a.limbs@.len(),
                na <= i,
                i <= n,
                old(self).num_targets + n <= usize::MAX + na,
                self.num_targets == old(self).num_targets + i - na,
                start == old(self).constraints@.len() as int,
                self.constraints@.len() == start + i - na,
                self.constraints@.take(start) == old(self).constraints@,
                self.generators@.len() == old(self).generators@.len() + i - na,
                self.generators@.take(old(self).generators@.len() as int)
                    == old(self).generators@,
                limbs@.len() == i,
                limbs@.take(na as int) == a.limbs@,
                forall|q: int| na as int <= q < i as int
                    ==> self.constraints@[start + q - na as int] == (Constraint::ConstantVal {
                        t: limbs@[q].0,
                        value: 0,
                    }),
            decreases n - i,
        {
            let z = self.zero_u32();
            limbs.push(z);
            proof {
                assert(self.constraints@.take(start) =~= old(self).constraints@);
                assert(self.generators@.take(old(self).generators@.len() as int) =~= old(
                    self,
                ).generators@);
                assert(limbs@.take(na as int) =~= a.limbs@);
            }
            i = i + 1;
        }
        proof {
            assert forall|w: Seq<Option<u64>>|
                #[trigger] constraints_hold_from(self.constraints@, start, w)
                implies decoded(w, limbs@) == decoded(w, a.limbs@)
                    && (limbs_ranged(w, a.limbs@) ==> limbs_ranged(w, limbs@)) by {
                assert forall|q: int| na as int <= q < limbs@.len()
                    implies u32v(w, #[trigger] limbs@[q]) == 0 && tset(w, limbs@[q].0) by {
                    assert(constraint_holds(self.constraints@[start + q - na as int], w));
                }
                lemma_decoded_zero_pad(w, limbs@, na as int);
                assert(limbs@.take(na as int) == a.limbs@);
                if limbs_ranged(w, a.limbs@) {
                    assert forall|q: int| 0 <= q < limbs@.len()
                        implies u32_ranged(w, #[trigger] limbs@[q]) by {
                        if q < na as int {
                            assert(limbs@[q] == a.limbs@[q]);
                        }
                    }
                }
            }
        }
        BigUintTarget { limbs }
    }

    /// Compare two values of any limb counts: a boolean target that is 1
    /// exactly when the first denotes a value at most the second's.
    pub fn cmp_biguint(&mut self, a: &BigUintTarget, b: &BigUintTarget) -> (r: BoolTarget)
        requires
            old(self).num_targets + a.limbs@.len() + b.limbs@.len() + 1 <= usize::MAX,
        ensures
            final(self).constraints@.len() >= old(self).constraints@.len(),
            final(self).generators@.len() >= old(self).generators@.len(),
            final(self).constraints@.take(old(self).constraints@.len() as int)
                == old(self).constraints@,
            final(self).generators@.take(old(self).generators@.len() as int)
                == old(self).generators@,
            forall|w: Seq<Option<u64>>|
                limbs_ranged(w, a.limbs@) && limbs_ranged(w, b.limbs@)
                    && #[trigger] constraints_hold_from(
                    final(self).constraints@,
                    old(self).constraints@.len() as int,
                    w,
                ) ==> tset(w, r.target) && tv(w, r.target) == (if decoded(w, a.limbs@)
                    <= decoded(w, b.limbs@) {
                    1int
                } else {
                    0int
                }),
    {
        let ghost start = self.constraints@.len() as int;
        let (pa, pb) = self.pad_biguints(a, b);
        let ghost mid = self.constraints@.len() as int;
        let out = self.list_le(&pa.limbs, &pb.limbs);
        proof {
            assert forall|w: Seq<Option<u64>>|
                limbs_ranged(w, a.limbs@) && limbs_ranged(w, b.limbs@)
                    && #[trigger] constraints_hold_from(self.constraints@, start, w)
                implies tset(w, out.target) && tv(w, out.target) == (if decoded(w, a.limbs@)
                    <= decoded(w, b.limbs@) {
                    1int
                } else {
                    0int
                }) by {
                assert(constraints_hold_from(self.constraints@.take(mid), start, w)) by {
                    assert forall|k: int| start <= k < self.constraints@.take(mid).len()
                        implies constraint_holds(
                            #[trigger] self.constraints@.take(mid)[k],
                            w,
                        ) by {
                        assert(self.constraints@.take(mid)[k] == self.constraints@[k]);
                    }
                }
                assert(constraint_holds(self.constraints@[self.constraints@.len() - 1], w));
                assert(self.constraints@.last() matches Constraint::ListLe { a: av, b: bv, out: o }
                    && av@ == pa.limbs@ && bv@ == pb.limbs@ && o == out);
                match self.constraints@.last() {
                    Constraint::ListLe { a: av, b: bv, out: o } => {
                        assert(decoded(w, av@) == decoded(w, pa.limbs@));
                        assert(decoded(w, bv@) == decoded(w, pb.limbs@));
                    },
                    _ => {},
                }
            }
        }
        out
    }

    /// Ripple-carry addition of two equal-limb-count values. Mismatched limb
    /// counts are rejected at construction time. In every witness satisfying
    /// the recorded constraints (with ranged inputs) the result denotes
    /// exactly the sum, has one extra limb, and that limb is 0 or 1.
    pub fn add_biguint(&mut self, a: &BigUintTarget, b: &BigUintTarget) -> (res: Result<
        BigUintTarget,
        CircuitError,
    >)
        requires
            old(self).num_targets + 2 * a.limbs@.len() + 1 <= usize::MAX,
        ensures
            res is Err <==> a.limbs@.len() != b.limbs@.len(),
            res is Err ==> res == Err::<BigUintTarget, CircuitError>(CircuitError::ShapeMismatch)
                && *final(self) == *old(self),
            final(self).num_targets <= old(self).num_targets + 2 * a.limbs@.len() + 1,
            final(self).constraints@.len() >= old(self).constraints@.len(),
            final(self).generators@.len() >= old(self).generators@.len(),
            final(self).constraints@.take(old(self).constraints@.len() as int)
                == old(self).constraints@,
            final(self).generators@.take(old(self).generators@.len() as int)
                == old(self).generators@,
            res matches Ok(r) ==> r.limbs@.len() == a.limbs@.len() + 1
                && forall|w: Seq<Option<u64>>|
                    limbs_ranged(w, a.limbs@) && limbs_ranged(w, b.limbs@)
                        && #[trigger] constraints_hold_from(
                        final(self).constraints@,
                        old(self).constraints@.len() as int,
                        w,
                    ) ==> decoded(w, r.limbs@) == decoded(w, a.limbs@) + decoded(w, b.limbs@)
                        && limbs_ranged(w, r.limbs@)
                        && 0 <= u32v(w, r.limbs@[a.limbs@.len() as int]) <= 1,
    {
        if a.num_limbs() != b.num_limbs() {
            return Err(CircuitError::ShapeMismatch);
        }
        let ghost start = self.constraints@.len() as int;
        let ghost gstart = self.generators@.len() as int;
        let n = a.num_limbs();
        let mut combined_limbs: Vec<U32Target> = Vec::new();
        let mut carry = self.zero_u32();
        proof {
            assert(self.constraints@.take(start) =~= old(self).constraints@);
            assert(self.generators@.take(gstart) =~= old(self).generators@);
            assert(a.limbs@.take(0) =~= Seq::<U32Target>::empty());
            assert(b.limbs@.take(0) =~= Seq::<U32Target>::empty());
            assert forall|w: Seq<Option<u64>>|
                limbs_ranged(w, a.limbs@) && limbs_ranged(w, b.limbs@)
                    && #[trigger] constraints_hold_from(self.constraints@, start, w)
                implies decoded(w, combined_limbs@) + pow_b(0) * tv(w, carry.0)
                    == decoded(w, a.limbs@.take(0)) + decoded(w, b.limbs@.take(0))
                    && limbs_ranged(w, combined_limbs@)
                    && tset(w, carry.0)
                    && 0 <= tv(w, carry.0) <= 1 by {
                assert(constraint_holds(self.constraints@[start], w));
                assert(pow_b(0) * tv(w, carry.0) == tv(w, carry.0)) by (nonlinear_arith)
                    requires pow_b(0) == 1;
            }
        }
        let mut i: usize = 0;
        while i < n
            invariant
                n == a.limbs@.len(),
                n == b.limbs@.len(),
                i <= n,
                old(self).num_targets + 2 * n + 1 <= usize::MAX,
                self.num_targets == old(self).num_targets + 1 + 2 * i,
                start == old(self).constraints@.len() as int,
                gstart == old(self).generators@.len() as int,
                self.constraints@.len() == start + 1 + i,
                self.generators@.len() == gstart + 1 + i,
                self.constraints@.take(start) == old(self).constraints@,
                self.generators@.take(gstart) == old(self).generators@,
                combined_limbs@.len() == i,
                forall|w: Seq<Option<u64>>|
                    limbs_ranged(w, a.limbs@) && limbs_ranged(w, b.limbs@)
                        && #[trigger] constraints_hold_from(self.constraints@, start, w)
                        ==> decoded(w, combined_limbs@) + pow_b(i as nat) * tv(w, carry.0)
                            == decoded(w, a.limbs@.take(i as int))
                                + decoded(w, b.limbs@.take(i as int))
                            && limbs_ranged(w, combined_limbs@)
                            && tset(w, carry.0)
                            && 0 <= tv(w, carry.0) <= 1,
            decreases n - i,
        {
            let ghost cs_pre = self.constraints@;
            let (new_limb, new_carry) = self.add_three_u32(carry, a.get_limb(i), b.get_limb(i));
            let ghost limbs_pre = combined_limbs@;
            combined_limbs.push(new_limb);
            proof {
                assert(self.constraints@.take(start) =~= old(self).constraints@);
                assert(self.generators@.take(gstart) =~= old(self).generators@);
                let ii = i as int;
                assert forall|w: Seq<Option<u64>>|
                    limbs_ranged(w, a.limbs@) && limbs_ranged(w, b.limbs@)
                        && #[trigger] constraints_hold_from(self.constraints@, start, w)
                    implies decoded(w, combined_limbs@) + pow_b((ii + 1) as nat) * tv(
                        w,
                        new_carry.0,
                    ) == decoded(w, a.limbs@.take(ii + 1)) + decoded(w, b.limbs@.take(ii + 1))
                        && limbs_ranged(w, combined_limbs@)
                        && tset(w, new_carry.0)
                        && 0 <= tv(w, new_carry.0) <= 1 by {
                    assert(constraints_hold_from(cs_pre, start, w)) by {
                        assert forall|k: int| start <= k < cs_pre.len()
                            implies constraint_holds(#[trigger] cs_pre[k], w) by {
                            assert(cs_pre[k] == self.constraints@[k]);
                        }
                    }
                    assert(constraint_holds(self.constraints@[self.constraints@.len() - 1], w));
                    let av = u32v(w, a.limbs@[ii]);
                    let bv = u32v(w, b.limbs@[ii]);
                    let cv = tv(w, carry.0);
                    let ov = u32v(w, new_limb);
                    let nc = tv(w, new_carry.0);
                    assert(av + bv + cv == ov + LIMB_BASE * nc);
                    assert(0 <= nc <= 1) by {
                        if nc >= 2 {
                            assert(LIMB_BASE * nc >= LIMB_BASE * 2) by (nonlinear_arith)
                                requires nc >= 2, LIMB_BASE > 0;
                        }
                    }
                    let old_limbs = limbs_pre;
                    lemma_decoded_snoc(w, old_limbs, new_limb);
                    assert(a.limbs@.take(ii + 1) =~= a.limbs@.take(ii).push(a.limbs@[ii]));
                    assert(b.limbs@.take(ii + 1) =~= b.limbs@.take(ii).push(b.limbs@[ii]));
                    lemma_decoded_snoc(w, a.limbs@.take(ii), a.limbs@[ii]);
                    lemma_decoded_snoc(w, b.limbs@.take(ii), b.limbs@[ii]);
                    let p = pow_b(i as nat);
                    assert(pow_b((ii + 1) as nat) == LIMB_BASE * p);
                    assert(decoded(w, old_limbs) + p * cv
                        == decoded(w, a.limbs@.take(ii)) + decoded(w, b.limbs@.take(ii)));
                    assert(p * av + p * bv + p * cv == p * ov + (LIMB_BASE * p) * nc)
                        by (nonlinear_arith)
                        requires av + bv + cv == ov + LIMB_BASE * nc;
                    assert forall|q: int| 0 <= q < combined_limbs@.len()
                        implies u32_ranged(w, #[trigger] combined_limbs@[q]) by {
                        if q < ii {
                            assert(combined_limbs@[q] == old_limbs[q]);
                        }
                    }
                }
            }
            carry = new_carry;
            i = i + 1;
        }
        let ghost limbs_fin = combined_limbs@;
        combined_limbs.push(carry);
        proof {
            assert(a.limbs@.take(n as int) =~= a.limbs@);
            assert(b.limbs@.take(n as int) =~= b.limbs@);
            assert forall|w: Seq<Option<u64>>|
                limbs_ranged(w, a.limbs@) && limbs_ranged(w, b.limbs@)
                    && #[trigger] constraints_hold_from(self.constraints@, start, w)
                implies decoded(w, combined_limbs@) == decoded(w, a.limbs@) + decoded(w, b.limbs@)
                    && limbs_ranged(w, combined_limbs@)
                    && 0 <= u32v(w, combined_limbs@[n as int]) <= 1 by {
                let old_limbs = limbs_fin;
                lemma_decoded_snoc(w, old_limbs, carry);
                assert forall|q: int| 0 <= q < combined_limbs@.len()
                    implies u32_ranged(w, #[trigger] combined_limbs@[q]) by {
                    if q < n as int {
                        assert(combined_limbs@[q] == old_limbs[q]);
                    }
                }
            }
        }
        Ok(BigUintTarget { limbs: combined_limbs })
    }

    /// Ripple-borrow subtraction of two equal-limb-count values; the final
    /// borrow is constrained to zero, so the recorded constraints are only
    /// satisfiable when the first operand's value is at least the second's,
    /// and then the result denotes exactly the difference.
    pub fn sub_biguint(&mut self, a: &BigUintTarget, b: &BigUintTarget) -> (res: Result<
        BigUintTarget,
        CircuitError,
    >)
        requires
            old(self).num_targets + 2 * a.limbs@.len() + 1 <= usize::MAX,
        ensures
            res is Err <==> a.limbs@.len() != b.limbs@.len(),
            res is Err ==> res == Err::<BigUintTarget, CircuitError>(CircuitError::ShapeMismatch)
                && *final(self) == *old(self),
            final(self).constraints@.len() >= old(self).constraints@.len(),
            final(self).generators@.len() >= old(self).generators@.len(),
            final(self).constraints@.take(old(self).constraints@.len() as int)
                == old(self).constraints@,
            final(self).generators@.take(old(self).generators@.len() as int)
                == old(self).generators@,
            res matches Ok(r) ==> r.limbs@.len() == a.limbs@.len()
                && forall|w: Seq<Option<u64>>|
                    limbs_ranged(w, a.limbs@) && limbs_ranged(w, b.limbs@)
                        && #[trigger] constraints_hold_from(
                        final(self).constraints@,
                        old(self).constraints@.len() as int,
                        w,
                    ) ==> decoded(w, r.limbs@) == decoded(w, a.limbs@) - decoded(w, b.limbs@)
                        && decoded(w, a.limbs@) >= decoded(w, b.limbs@)
                        && limbs_ranged(w, r.limbs@),
    {
        if a.num_limbs() != b.num_limbs() {
            return Err(CircuitError::ShapeMismatch);
        }
        let ghost start = self.constraints@.len() as int;
        let ghost gstart = self.generators@.len() as int;
        let n = a.num_limbs();
        let mut result_limbs: Vec<U32Target> = Vec::new();
        let mut borrow = self.zero_u32();
        proof {
            assert(self.constraints@.take(start) =~= old(self).constraints@);
            assert(self.generators@.take(gstart) =~= old(self).generators@);
            assert(a.limbs@.take(0) =~= Seq::<U32Target>::empty());
            assert(b.limbs@.take(0) =~= Seq::<U32Target>::empty());
            assert forall|w: Seq<Option<u64>>|
                limbs_ranged(w, a.limbs@) && limbs_ranged(w, b.limbs@)
                    && #[trigger] constraints_hold_from(self.constraints@, start, w)
                implies decoded(w, a.limbs@.take(0)) - decoded(w, b.limbs@.take(0))
                    == decoded(w, result_limbs@) - pow_b(0) * tv(w, borrow.0)
                    && limbs_ranged(w, result_limbs@)
                    && tset(w, borrow.0)
                    && 0 <= tv(w, borrow.0) <= 1 by {
                assert(constraint_holds(self.constraints@[start], w));
                assert(pow_b(0) * tv(w, borrow.0) == tv(w, borrow.0)) by (nonlinear_arith)
                    requires pow_b(0) == 1;
            }
        }
        let mut i: usize = 0;
        while i < n
            invariant
                n == a.limbs@.len(),
                n == b.limbs@.len(),
                i <= n,
                old(self).num_targets + 2 * n + 1 <= usize::MAX,
                self.num_targets == old(self).num_targets + 1 + 2 * i,
                start == old(self).constraints@.len() as int,
                gstart == old(self).generators@.len() as int,
                self.constraints@.len() == start + 1 + i,
                self.generators@.len() == gstart + 1 + i,
                self.constraints@.take(start) == old(self).constraints@,
                self.generators@.take(gstart) == old(self).generators@,
                result_limbs@.len() == i,
                forall|w: Seq<Option<u64>>|
                    limbs_ranged(w, a.limbs@) && limbs_ranged(w, b.limbs@)
                        && #[trigger] constraints_hold_from(self.constraints@, start, w)
                        ==> decoded(w, a.limbs@.take(i as int)) - decoded(
                            w,
                            b.limbs@.take(i as int),
                        ) == decoded(w, result_limbs@) - pow_b(i as nat) * tv(w, borrow.0)
                            && limbs_ranged(w, result_limbs@)
                            && tset(w, borrow.0)
                            && 0 <= tv(w, borrow.0) <= 1,
            decreases n - i,
        {
            let ghost cs_pre = self.constraints@;
            let (result, new_borrow) = self.sub_u32(a.get_limb(i), b.get_limb(i), borrow);
            let ghost limbs_pre = result_limbs@;
            result_limbs.push(result);
            proof {
                assert(self.constraints@.take(start) =~= old(self).constraints@);
                assert(self.generators@.take(gstart) =~= old(self).generators@);
                let ii = i as int;
                assert forall|w: Seq<Option<u64>>|
                    limbs_ranged(w, a.limbs@) && limbs_ranged(w, b.limbs@)
                        && #[trigger] constraints_hold_from(self.constraints@, start, w)
                    implies decoded(w, a.limbs@.take(ii + 1)) - decoded(w, b.limbs@.take(ii + 1))
                        == decoded(w, result_limbs@) - pow_b((ii + 1) as nat) * tv(
                            w,
                            new_borrow.0,
                        )
                        && limbs_ranged(w, result_limbs@)
                        && tset(w, new_borrow.0)
                        && 0 <= tv(w, new_borrow.0) <= 1 by {
                    assert(constraints_hold_from(cs_pre, start, w)) by {
                        assert forall|k: int| start <= k < cs_pre.len()
                            implies constraint_holds(#[trigger] cs_pre[k], w) by {
                            assert(cs_pre[k] == self.constraints@[k]);
                        }
                    }
                    assert(constraint_holds(self.constraints@[self.constraints@.len() - 1], w));
                    let av = u32v(w, a.limbs@[ii]);
                    let bv = u32v(w, b.limbs@[ii]);
                    let cv = tv(w, borrow.0);
                    let ov = u32v(w, result);
                    let nb = tv(w, new_borrow.0);
                    assert(ov == av - bv - cv + LIMB_BASE * nb);
                    let old_limbs = limbs_pre;
                    lemma_decoded_snoc(w, old_limbs, result);
                    assert(a.limbs@.take(ii + 1) =~= a.limbs@.take(ii).push(a.limbs@[ii]));
                    assert(b.limbs@.take(ii + 1) =~= b.limbs@.take(ii).push(b.limbs@[ii]));
                    lemma_decoded_snoc(w, a.limbs@.take(ii), a.limbs@[ii]);
                    lemma_decoded_snoc(w, b.limbs@.take(ii), b.limbs@[ii]);
                    let p = pow_b(i as nat);
                    assert(pow_b((ii + 1) as nat) == LIMB_BASE * p);
                    assert(p * ov == p * av - p * bv - p * cv + (LIMB_BASE * p) * nb)
                        by (nonlinear_arith)
                        requires ov == av - bv - cv + LIMB_BASE * nb;
                    assert forall|q: int| 0 <= q < result_limbs@.len()
                        implies u32_ranged(w, #[trigger] result_limbs@[q]) by {
                        if q < ii {
                            assert(result_limbs@[q] == old_limbs[q]);
                        }
                    }
                }
            }
            borrow = new_borrow;
            i = i + 1;
        }
        // The final borrow must be zero: without this constraint a prover
        // could satisfy the row with a wrapped-around difference.
        let ghost cs_pre = self.constraints@;
        self.assert_zero_u32(borrow);
        proof {
            assert(self.constraints@.take(start) =~= old(self).constraints@);
            assert(self.generators@.take(gstart) =~= old(self).generators@);
            assert(a.limbs@.take(n as int) =~= a.limbs@);
            assert(b.limbs@.take(n as int) =~= b.limbs@);
            assert forall|w: Seq<Option<u64>>|
                limbs_ranged(w, a.limbs@) && limbs_ranged(w, b.limbs@)
                    && #[trigger] constraints_hold_from(self.constraints@, start, w)
                implies decoded(w, result_limbs@) == decoded(w, a.limbs@) - decoded(w, b.limbs@)
                    && decoded(w, a.limbs@) >= decoded(w, b.limbs@)
                    && limbs_ranged(w, result_limbs@) by {
                assert(constraints_hold_from(cs_pre, start, w)) by {
                    assert forall|k: int| start <= k < cs_pre.len()
                        implies constraint_holds(#[trigger] cs_pre[k], w) by {
                        assert(cs_pre[k] == self.constraints@[k]);
                    }
                }
                assert(constraint_holds(self.constraints@[self.constraints@.len() - 1], w));
                assert(tv(w, borrow.0) == 0);
                assert(pow_b(n as nat) * 0 == 0) by (nonlinear_arith);
                lemma_decoded_bound(w, result_limbs@);
            }
        }
        Ok(BigUintTarget { limbs: result_limbs })
    }

    /// Schoolbook multiplication of two equal-limb-count values: every limb
    /// pair contributes a product limb and a carry limb into the right output
    /// positions, each output position is reduced with a multi-operand
    /// carry-propagating row, and the final carry is asserted zero. The
    /// output is exactly `2 * n` limbs wide, and in every witness satisfying
    /// the recorded constraints (with ranged inputs) it denotes exactly the
    /// product of the operands.
    pub fn mul_biguint(&mut self, a: &BigUintTarget, b: &BigUintTarget) -> (res: Result<
        BigUintTarget,
        CircuitError,
    >)
        requires
            a.limbs@.len() <= 0x1000_0000,
            old(self).num_targets + 2 * a.limbs@.len() * a.limbs@.len() + 4 * a.limbs@.len() + 3
                <= usize::MAX,
        ensures
            res is Err <==> a.limbs@.len() != b.limbs@.len(),
            res is Err ==> res == Err::<BigUintTarget, CircuitError>(CircuitError::ShapeMismatch)
                && *final(self) == *old(self),
            final(self).num_targets >= old(self).num_targets,
            final(self).constraints@.len() >= old(self).constraints@.len(),
            final(self).generators@.len() >= old(self).generators@.len(),
            final(self).constraints@.take(old(self).constraints@.len() as int)
                == old(self).constraints@,
            final(self).generators@.take(old(self).generators@.len() as int)
                == old(self).generators@,
            res is Ok ==> final(self).num_targets == old(self).num_targets + 2 * a.limbs@.len()
                * a.limbs@.len() + 4 * a.limbs@.len() + 1,
            res matches Ok(r) ==> r.limbs@.len() == 2 * a.limbs@.len()
                && forall|w: Seq<Option<u64>>|
                    limbs_ranged(w, a.limbs@) && limbs_ranged(w, b.limbs@)
                        && #[trigger] constraints_hold_from(
                        final(self).constraints@,
                        old(self).constraints@.len() as int,
                        w,
                    ) ==> decoded(w, r.limbs@) == decoded(w, a.limbs@) * decoded(w, b.limbs@)
                        && limbs_ranged(w, r.limbs@),
    {
        if a.num_limbs() != b.num_limbs() {
            proof {
                assert(self.constraints@.take(self.constraints@.len() as int)
                    =~= self.constraints@);
                assert(self.generators@.take(self.generators@.len() as int) =~= self.generators@);
            }
            return Err(CircuitError::ShapeMismatch);
        }
        let ghost start = self.constraints@.len() as int;
        let ghost gstart = self.generators@.len() as int;
        let n = a.num_limbs();
        let ghost ni_ = n as int;
        let mut to_add: Vec<Vec<U32Target>> = Vec::new();
        let mut p: usize = 0;
        proof {
            assert(self.constraints@.take(start) =~= old(self).constraints@);
            assert(self.generators@.take(gstart) =~= old(self).generators@);
            assert(ni_ * ni_ >= 0) by (nonlinear_arith);
        }
        while p < 2 * n
            invariant
                n <= 0x1000_0000,
                to_add@.len() == p,
                p <= 2 * n,
                self.num_targets == old(self).num_targets,
                self.constraints@ == old(self).constraints@,
                self.generators@ == old(self).generators@,
                forall|q: int| 0 <= q < p as int ==> (#[trigger] to_add@[q])@ =~= Seq::<
                    U32Target,
                >::empty(),
            decreases 2 * n - p,
        {
            to_add.push(Vec::new());
            p = p + 1;
        }
        let mut i: usize = 0;
        proof {
            assert(a.limbs@.take(0) =~= Seq::<U32Target>::empty());
            assert forall|w: Seq<Option<u64>>|
                limbs_ranged(w, a.limbs@) && limbs_ranged(w, b.limbs@)
                    && #[trigger] constraints_hold_from(self.constraints@, start, w)
                implies weighted_sum(w, to_add@) == decoded(w, a.limbs@.take(0)) * decoded(
                    w,
                    b.limbs@,
                ) by {
                lemma_ws_all_empty(w, to_add@);
                assert(0 == 0 * decoded(w, b.limbs@)) by (nonlinear_arith);
            }
        }
        while i < n
            invariant
                n == a.limbs@.len(),
                n == b.limbs@.len(),
                n <= 0x1000_0000,
                ni_ == n as int,
                i <= n,
                to_add@.len() == 2 * n,
                old(self).num_targets + 2 * ni_ * ni_ + 4 * ni_ + 3 <= usize::MAX,
                self.num_targets == old(self).num_targets + 2 * ((i as int) * ni_),
                start == old(self).constraints@.len() as int,
                gstart == old(self).generators@.len() as int,
                self.constraints@.len() >= start,
                self.generators@.len() >= gstart,
                self.constraints@.take(start) == old(self).constraints@,
                self.generators@.take(gstart) == old(self).generators@,
                forall|w: Seq<Option<u64>>|
                    limbs_ranged(w, a.limbs@) && limbs_ranged(w, b.limbs@)
                        && #[trigger] constraints_hold_from(self.constraints@, start, w)
                        ==> weighted_sum(w, to_add@) == decoded(w, a.limbs@.take(i as int))
                            * decoded(w, b.limbs@),
            decreases n - i,
        {
            let mut j: usize = 0;
            proof {
                assert(b.limbs@.take(0) =~= Seq::<U32Target>::empty());
                assert forall|w: Seq<Option<u64>>|
                    limbs_ranged(w, a.limbs@) && limbs_ranged(w, b.limbs@)
                        && #[trigger] constraints_hold_from(self.constraints@, start, w)
                    implies weighted_sum(w, to_add@) == decoded(w, a.limbs@.take(i as int))
                        * decoded(w, b.limbs@) + (pow_b(i as nat) * u32v(w, a.limbs@[i as int]))
                        * decoded(w, b.limbs@.take(0)) by {
                    assert((pow_b(i as nat) * u32v(w, a.limbs@[i as int])) * 0 == 0)
                        by (nonlinear_arith);
                }
            }
            while j < n
                invariant
                    n == a.limbs@.len(),
                    n == b.limbs@.len(),
                    n <= 0x1000_0000,
                    ni_ == n as int,
                    i < n,
                    j <= n,
                    to_add@.len() == 2 * n,
                    old(self).num_targets + 2 * ni_ * ni_ + 4 * ni_ + 3 <= usize::MAX,
                    self.num_targets == old(self).num_targets + 2 * ((i as int) * ni_ + j as int),
                    start == old(self).constraints@.len() as int,
                    gstart == old(self).generators@.len() as int,
                    self.constraints@.len() >= start,
                    self.generators@.len() >= gstart,
                    self.constraints@.take(start) == old(self).constraints@,
                    self.generators@.take(gstart) == old(self).generators@,
                    forall|w: Seq<Option<u64>>|
                        limbs_ranged(w, a.limbs@) && limbs_ranged(w, b.limbs@)
                            && #[trigger] constraints_hold_from(self.constraints@, start, w)
                            ==> weighted_sum(w, to_add@) == decoded(w, a.limbs@.take(i as int))
                                * decoded(w, b.limbs@) + (pow_b(i as nat) * u32v(
                                w,
                                a.limbs@[i as int],
                            )) * decoded(w, b.limbs@.take(j as int)),
                decreases n - j,
            {
                proof {
                    assert((i as int) * ni_ + (j as int) < ni_ * ni_) by (nonlinear_arith)
                        requires 0 <= i as int, (i as int) < ni_, 0 <= j as int, (j as int) < ni_;
                    assert(2 * ((i as int) * ni_ + j as int) + 2 <= 2 * ni_ * ni_)
                        by (nonlinear_arith)
                        requires (i as int) * ni_ + (j as int) < ni_ * ni_, ni_ >= 0;
                }
                let ghost cs_pre = self.constraints@;
                let ghost rows0 = to_add@;
                let (product, carry) = self.mul_u32(a.get_limb(i), b.get_limb(j));
                let mut row = to_add[i + j].clone();
                row.push(product);
                to_add.set(i + j, row);
                let ghost rows1 = to_add@;
                let mut row2 = to_add[i + j + 1].clone();
                row2.push(carry);
                to_add.set(i + j + 1, row2);
                proof {
                    assert(self.constraints@.take(start) =~= old(self).constraints@);
                    assert(self.generators@.take(gstart) =~= old(self).generators@);
                    let ii = i as int;
                    let jj = j as int;
                    assert forall|w: Seq<Option<u64>>|
                        limbs_ranged(w, a.limbs@) && limbs_ranged(w, b.limbs@)
                            && #[trigger] constraints_hold_from(self.constraints@, start, w)
                        implies weighted_sum(w, to_add@) == decoded(w, a.limbs@.take(ii))
                            * decoded(w, b.limbs@) + (pow_b(i as nat) * u32v(w, a.limbs@[ii]))
                            * decoded(w, b.limbs@.take(jj + 1)) by {
                        assert(constraints_hold_from(cs_pre, start, w)) by {
                            assert forall|k2: int| start <= k2 < cs_pre.len()
                                implies constraint_holds(#[trigger] cs_pre[k2], w) by {
                                assert(cs_pre[k2] == self.constraints@[k2]);
                            }
                        }
                        assert(constraint_holds(
                            self.constraints@[self.constraints@.len() - 1],
                            w,
                        ));
                        let av = u32v(w, a.limbs@[ii]);
                        let bv = u32v(w, b.limbs@[jj]);
                        let lo = u32v(w, product);
                        let hi = u32v(w, carry);
                        assert(av * bv == lo + LIMB_BASE * hi);
                        lemma_ws_push_entry(w, rows0, rows1, ii + jj, product);
                        lemma_ws_push_entry(w, rows1, to_add@, ii + jj + 1, carry);
                        lemma_pow_b_add((ii + jj) as nat, 1);
                        assert(pow_b((ii + jj + 1) as nat) == pow_b((ii + jj) as nat)
                            * pow_b(1)) by {
                            assert((ii + jj) as nat + 1 == (ii + jj + 1) as nat);
                        }
                        assert(pow_b(0) == 1);
                        assert(pow_b(1) == LIMB_BASE * pow_b(0));
                        lemma_pow_b_add(i as nat, j as nat);
                        assert(pow_b((ii + jj) as nat) == pow_b(i as nat) * pow_b(j as nat)) by {
                            assert(i as nat + j as nat == (ii + jj) as nat);
                        }
                        assert(b.limbs@.take(jj + 1) =~= b.limbs@.take(jj).push(b.limbs@[jj]));
                        lemma_decoded_snoc(w, b.limbs@.take(jj), b.limbs@[jj]);
                        let pi = pow_b(i as nat);
                        let pj = pow_b(j as nat);
                        let dj = decoded(w, b.limbs@.take(jj));
                        assert(pow_b((ii + jj) as nat) * lo + (pow_b((ii + jj) as nat)
                            * (LIMB_BASE * 1)) * hi == (pi * pj) * (av * bv))
                            by (nonlinear_arith)
                            requires
                                av * bv == lo + LIMB_BASE * hi,
                                pow_b((ii + jj) as nat) == pi * pj;
                        assert((pi * av) * (dj + pj * bv) == (pi * av) * dj + (pi * pj) * (av
                            * bv)) by (nonlinear_arith);
                    }
                }
                j = j + 1;
            }
            proof {
                assert(b.limbs@.take(ni_) =~= b.limbs@);
                let ii = i as int;
                assert((ii) * ni_ + ni_ == (ii + 1) * ni_) by (nonlinear_arith);
                assert forall|w: Seq<Option<u64>>|
                    limbs_ranged(w, a.limbs@) && limbs_ranged(w, b.limbs@)
                        && #[trigger] constraints_hold_from(self.constraints@, start, w)
                    implies weighted_sum(w, to_add@) == decoded(w, a.limbs@.take(ii + 1))
                        * decoded(w, b.limbs@) by {
                    assert(a.limbs@.take(ii + 1) =~= a.limbs@.take(ii).push(a.limbs@[ii]));
                    lemma_decoded_snoc(w, a.limbs@.take(ii), a.limbs@[ii]);
                    let pi = pow_b(i as nat);
                    let av = u32v(w, a.limbs@[ii]);
                    let da = decoded(w, a.limbs@.take(ii));
                    let db = decoded(w, b.limbs@);
                    assert(da * db + (pi * av) * db == (da + pi * av) * db) by (nonlinear_arith);
                }
            }
            i = i + 1;
        }
        let mut combined_limbs: Vec<U32Target> = Vec::new();
        proof {
            assert(2 * (ni_ * ni_) == 2 * ni_ * ni_) by (nonlinear_arith);
            assert(2 * ni_ * ni_ + 4 * ni_ + 3 >= 1) by (nonlinear_arith)
                requires ni_ >= 0;
        }
        let ghost cs_q = self.constraints@;
        let mut carry = self.zero_u32();
        proof {
            assert(self.constraints@.take(start) =~= old(self).constraints@);
            assert(self.generators@.take(gstart) =~= old(self).generators@);
            assert(a.limbs@.take(ni_) =~= a.limbs@);
            assert(to_add@.take(0) =~= Seq::<Vec<U32Target>>::empty());
            let ghost cs_pre = cs_q;
            assert forall|w: Seq<Option<u64>>|
                limbs_ranged(w, a.limbs@) && limbs_ranged(w, b.limbs@)
                    && #[trigger] constraints_hold_from(self.constraints@, start, w)
                implies weighted_sum(w, to_add@) == decoded(w, a.limbs@) * decoded(w, b.limbs@)
                    && decoded(w, combined_limbs@) + pow_b(0) * tv(w, carry.0) == weighted_sum(
                        w,
                        to_add@.take(0),
                    )
                    && limbs_ranged(w, combined_limbs@)
                    && tset(w, carry.0) && 0 <= tv(w, carry.0) < LIMB_BASE by {
                assert(constraints_hold_from(cs_pre, start, w)) by {
                    assert forall|k2: int| start <= k2 < cs_pre.len()
                        implies constraint_holds(#[trigger] cs_pre[k2], w) by {
                        assert(cs_pre[k2] == self.constraints@[k2]);
                    }
                }
                assert(constraint_holds(self.constraints@[self.constraints@.len() - 1], w));
                assert(tv(w, carry.0) == 0);
                assert(pow_b(0) * 0 == 0) by (nonlinear_arith);
            }
        }
        let mut k: usize = 0;
        while k < 2 * n
            invariant
                n == a.limbs@.len(),
                n == b.limbs@.len(),
                n <= 0x1000_0000,
                ni_ == n as int,
                k <= 2 * n,
                to_add@.len() == 2 * n,
                combined_limbs@.len() == k,
                old(self).num_targets + 2 * ni_ * ni_ + 4 * ni_ + 3 <= usize::MAX,
                self.num_targets == old(self).num_targets + 2 * ni_ * ni_ + 1 + 2 * (k as int),
                start == old(self).constraints@.len() as int,
                gstart == old(self).generators@.len() as int,
                self.constraints@.len() >= start,
                self.generators@.len() >= gstart,
                self.constraints@.take(start) == old(self).constraints@,
                self.generators@.take(gstart) == old(self).generators@,
                forall|w: Seq<Option<u64>>|
                    limbs_ranged(w, a.limbs@) && limbs_ranged(w, b.limbs@)
                        && #[trigger] constraints_hold_from(self.constraints@, start, w)
                        ==> weighted_sum(w, to_add@) == decoded(w, a.limbs@) * decoded(
                            w,
                            b.limbs@,
                        )
                            && decoded(w, combined_limbs@) + pow_b(k as nat) * tv(w, carry.0)
                                == weighted_sum(w, to_add@.take(k as int))
                            && limbs_ranged(w, combined_limbs@)
                            && tset(w, carry.0) && 0 <= tv(w, carry.0) < LIMB_BASE,
            decreases 2 * n - k,
        {
            proof {
                assert(2 * (k as int) + 2 <= 4 * ni_) by (nonlinear_arith)
                    requires (k as int) < 2 * ni_;
            }
            let ghost cs_pre = self.constraints@;
            let ghost limbs_pre = combined_limbs@;
            let mut row = to_add[k].clone();
            row.push(carry);
            let (new_result, new_carry) = self.add_many_u32(&row);
            combined_limbs.push(new_result);
            proof {
                assert(self.constraints@.take(start) =~= old(self).constraints@);
                assert(self.generators@.take(gstart) =~= old(self).generators@);
                let kk = k as int;
                assert forall|w: Seq<Option<u64>>|
                    limbs_ranged(w, a.limbs@) && limbs_ranged(w, b.limbs@)
                        && #[trigger] constraints_hold_from(self.constraints@, start, w)
                    implies weighted_sum(w, to_add@) == decoded(w, a.limbs@) * decoded(
                        w,
                        b.limbs@,
                    )
                        && decoded(w, combined_limbs@) + pow_b((kk + 1) as nat) * tv(
                            w,
                            new_carry.0,
                        ) == weighted_sum(w, to_add@.take(kk + 1))
                        && limbs_ranged(w, combined_limbs@)
                        && tset(w, new_carry.0) && 0 <= tv(w, new_carry.0) < LIMB_BASE by {
                    assert(constraints_hold_from(cs_pre, start, w)) by {
                        assert forall|k2: int| start <= k2 < cs_pre.len()
                            implies constraint_holds(#[trigger] cs_pre[k2], w) by {
                            assert(cs_pre[k2] == self.constraints@[k2]);
                        }
                    }
                    assert(constraint_holds(self.constraints@[self.constraints@.len() - 1], w));
                    let sv = sum_u32(w, row@);
                    let ov = u32v(w, new_result);
                    let nc = u32v(w, new_carry);
                    assert(sv == ov + LIMB_BASE * nc);
                    lemma_sum_u32_snoc(w, to_add@[kk]@, carry);
                    assert(row@ == to_add@[kk]@.push(carry));
                    lemma_ws_take_snoc(w, to_add@, kk);
                    lemma_decoded_snoc(w, limbs_pre, new_result);
                    let pk = pow_b(k as nat);
                    let cv = tv(w, carry.0);
                    let sk = sum_u32(w, to_add@[kk]@);
                    assert(pow_b((kk + 1) as nat) == LIMB_BASE * pk);
                    assert(pk * ov + (LIMB_BASE * pk) * nc == pk * sk + pk * cv)
                        by (nonlinear_arith)
                        requires sk + cv == ov + LIMB_BASE * nc;
                    assert forall|q: int| 0 <= q < combined_limbs@.len()
                        implies u32_ranged(w, #[trigger] combined_limbs@[q]) by {
                        if q < kk {
                            assert(combined_limbs@[q] == limbs_pre[q]);
                        }
                    }
                }
            }
            carry = new_carry;
            k = k + 1;
        }
        // The final carry must be zero: the product of two `n`-limb values
        // fits in `2 * n` limbs, and an unconstrained top carry would let a
        // prover shift the denoted value.
        let ghost cs_pre2 = self.constraints@;
        self.assert_zero_u32(carry);
        proof {
            assert(self.constraints@.take(start) =~= old(self).constraints@);
            assert(self.generators@.take(gstart) =~= old(self).generators@);
            assert(to_add@.take(2 * ni_) =~= to_add@);
            assert forall|w: Seq<Option<u64>>|
                limbs_ranged(w, a.limbs@) && limbs_ranged(w, b.limbs@)
                    && #[trigger] constraints_hold_from(self.constraints@, start, w)
                implies decoded(w, combined_limbs@) == decoded(w, a.limbs@) * decoded(
                    w,
                    b.limbs@,
                ) && limbs_ranged(w, combined_limbs@) by {
                assert(constraints_hold_from(cs_pre2, start, w)) by {
                    assert forall|k2: int| start <= k2 < cs_pre2.len()
                        implies constraint_holds(#[trigger] cs_pre2[k2], w) by {
                        assert(cs_pre2[k2] == self.constraints@[k2]);
                    }
                }
                assert(constraint_holds(self.constraints@[self.constraints@.len() - 1], w));
                assert(tv(w, carry.0) == 0);
                assert(pow_b((2 * ni_) as nat) * 0 == 0) by (nonlinear_arith);
            }
        }
        Ok(BigUintTarget { limbs: combined_limbs })
    }

    /// Division with remainder, the only operation requiring non-determinism:
    /// a generator computes the native quotient and remainder, and the
    /// circuit verifies them algebraically: in every witness satisfying the
    /// recorded constraints, `a == div * b + rem` and `rem <= b` (the
    /// comparator's boolean asserted one). Both results are allocated at the
    /// common padded width, every result limb range-constrained, so a
    /// wrapped-around out-of-range quotient cannot satisfy the rows; a
    /// divisor with no limbs is rejected at construction, a divisor whose
    /// value is zero fails at generation time.
    pub fn div_rem_biguint(&mut self, a: &BigUintTarget, b: &BigUintTarget) -> (res: Result<
        (BigUintTarget, BigUintTarget),
        CircuitError,
    >)
        requires
            a.limbs@.len() <= 0x1000_0000,
            b.limbs@.len() <= 0x1000_0000,
            ({
                let m = if a.limbs@.len() >= b.limbs@.len() {
                    a.limbs@.len() as int
                } else {
                    b.limbs@.len() as int
                };
                old(self).num_targets + 2 * m * m + 24 * m + 16 <= usize::MAX
            }),
        ensures
            res is Err <==> (a.limbs@.len() == 0 || b.limbs@.len() == 0),
            res is Err ==> res == Err::<(BigUintTarget, BigUintTarget), CircuitError>(
                CircuitError::ShapeMismatch,
            ) && *final(self) == *old(self),
            final(self).constraints@.len() >= old(self).constraints@.len(),
            final(self).generators@.len() >= old(self).generators@.len(),
            final(self).constraints@.take(old(self).constraints@.len() as int)
                == old(self).constraints@,
            final(self).generators@.take(old(self).generators@.len() as int)
                == old(self).generators@,
            res matches Ok(dr) ==> {
                let m = if a.limbs@.len() >= b.limbs@.len() {
                    a.limbs@.len() as int
                } else {
                    b.limbs@.len() as int
                };
                dr.0.limbs@.len() == m && dr.1.limbs@.len() == m
            },
            res matches Ok(dr) ==> exists|k: int|
                old(self).generators@.len() <= k < final(self).generators@.len()
                    && is_div_rem_generator(
                    #[trigger] final(self).generators@[k],
                    dr.0.limbs@,
                    dr.1.limbs@,
                ),
            res matches Ok(dr) ==> forall|w: Seq<Option<u64>>|
                limbs_ranged(w, a.limbs@) && limbs_ranged(w, b.limbs@)
                    && #[trigger] constraints_hold_from(
                    final(self).constraints@,
                    old(self).constraints@.len() as int,
                    w,
                ) ==> decoded(w, a.limbs@) == decoded(w, dr.0.limbs@) * decoded(w, b.limbs@)
                        + decoded(w, dr.1.limbs@)
                    && decoded(w, dr.1.limbs@) <= decoded(w, b.limbs@)
                    && limbs_ranged(w, dr.0.limbs@) && limbs_ranged(w, dr.1.limbs@),
    {
        if a.num_limbs() == 0 || b.num_limbs() == 0 {
            proof {
                assert(self.constraints@.take(self.constraints@.len() as int)
                    =~= self.constraints@);
                assert(self.generators@.take(self.generators@.len() as int) =~= self.generators@);
            }
            return Err(CircuitError::ShapeMismatch);
        }
        let ghost start = self.constraints@.len() as int;
        let ghost gstart = self.generators@.len() as int;
        let ghost ml: int = if a.limbs@.len() >= b.limbs@.len() {
            a.limbs@.len() as int
        } else {
            b.limbs@.len() as int
        };
        proof {
            assert(2 * ml * ml >= 0) by (nonlinear_arith)
                requires ml >= 0;
        }
        let (pa, pb) = self.pad_biguints(a, b);
        let ghost m1 = self.constraints@.len() as int;
        let ghost cs1 = self.constraints@;
        let n = pa.num_limbs();
        let ghost mi = n as int;
        let div = self.add_virtual_biguint_target(n);
        let ghost m2 = self.constraints@.len() as int;
        let ghost cs2 = self.constraints@;
        proof {
            assert(self.constraints@.take(m1) =~= cs1);
        }
        let rem = self.add_virtual_biguint_target(n);
        let ghost m3 = self.constraints@.len() as int;
        let ghost cs3 = self.constraints@;
        proof {
            assert(self.constraints@.take(m2) =~= cs2);
            assert(self.constraints@.take(m1) =~= cs1);
        }
        self.add_simple_generator(
            Generator::BigUintDivRem {
                a: pa.limbs.clone(),
                b: pb.limbs.clone(),
                div: div.limbs.clone(),
                rem: rem.limbs.clone(),
            },
        );
        let ghost g_idx = self.generators@.len() - 1;
        let ghost gens_at_push = self.generators@;
        proof {
            assert(self.generators@.take(gstart) =~= old(self).generators@);
            assert(mi == ml);
            assert(self.num_targets <= old(self).num_targets + 4 * ml);
            assert(2 * mi * mi == 2 * ml * ml);
        }
        let div_b = match self.mul_biguint(&div, &pb) {
            Ok(v) => v,
            Err(er) => {
                return Err(er);
            },
        };
        let ghost m4 = self.constraints@.len() as int;
        let ghost cs4 = self.constraints@;
        proof {
            assert(self.generators@.take(gstart) =~= old(self).generators@);
            assert(self.generators@[g_idx] == gens_at_push[g_idx]);
            assert(self.constraints@.take(m3) =~= cs3);
            assert(self.constraints@.take(m2) =~= cs2);
            assert(self.constraints@.take(m1) =~= cs1);
            assert(2 * mi * mi == 2 * ml * ml);
            assert(self.num_targets <= old(self).num_targets + 2 * ml * ml + 8 * ml + 1);
        }
        let (s1, s2) = self.pad_biguints(&div_b, &rem);
        let ghost m5 = self.constraints@.len() as int;
        let ghost cs5 = self.constraints@;
        proof {
            assert(self.generators@.take(gstart) =~= old(self).generators@);
            assert(self.generators@[g_idx] == gens_at_push[g_idx]);
            assert(self.constraints@.take(m4) =~= cs4);
            assert(self.constraints@.take(m3) =~= cs3);
            assert(self.constraints@.take(m2) =~= cs2);
            assert(self.constraints@.take(m1) =~= cs1);
        }
        let div_b_plus_rem = match self.add_biguint(&s1, &s2) {
            Ok(v) => v,
            Err(er) => {
                return Err(er);
            },
        };
        let ghost m6 = self.constraints@.len() as int;
        let ghost cs6 = self.constraints@;
        proof {
            assert(self.generators@.take(gstart) =~= old(self).generators@);
            assert(self.generators@[g_idx] == gens_at_push[g_idx]);
            assert(self.constraints@.take(m5) =~= cs5);
            assert(self.constraints@.take(m4) =~= cs4);
            assert(self.constraints@.take(m3) =~= cs3);
            assert(self.constraints@.take(m2) =~= cs2);
            assert(self.constraints@.take(m1) =~= cs1);
        }
        self.connect_biguint(a, &div_b_plus_rem);
        let ghost m7 = self.constraints@.len() as int;
        let ghost cs7 = self.constraints@;
        proof {
            assert(self.constraints@.take(m6) =~= cs6);
            assert(self.constraints@.take(m5) =~= cs5);
            assert(self.constraints@.take(m4) =~= cs4);
            assert(self.constraints@.take(m3) =~= cs3);
            assert(self.constraints@.take(m2) =~= cs2);
            assert(self.constraints@.take(m1) =~= cs1);
        }
        let cmp_rem_b = self.cmp_biguint(&rem, &pb);
        let ghost m8 = self.constraints@.len() as int;
        let ghost cs8 = self.constraints@;
        proof {
            assert(self.generators@.take(gstart) =~= old(self).generators@);
            assert(self.generators@[g_idx] == gens_at_push[g_idx]);
            assert(self.constraints@.take(m7) =~= cs7);
            assert(self.constraints@.take(m6) =~= cs6);
            assert(self.constraints@.take(m5) =~= cs5);
            assert(self.constraints@.take(m4) =~= cs4);
            assert(self.constraints@.take(m3) =~= cs3);
            assert(self.constraints@.take(m2) =~= cs2);
            assert(self.constraints@.take(m1) =~= cs1);
        }
        self.assert_one(cmp_rem_b.target);
        proof {
            assert(self.constraints@.take(old(self).constraints@.len() as int) =~= old(
                self,
            ).constraints@);
            assert(self.generators@.take(old(self).generators@.len() as int) =~= old(
                self,
            ).generators@);
            // The division generator survives every later registration.
            assert(is_div_rem_generator(gens_at_push[g_idx], div.limbs@, rem.limbs@));
            assert(self.generators@[g_idx] == gens_at_push[g_idx]);
            // Soundness of the algebraic verification, segment by segment.
            let cs = self.constraints@;
            assert(cs.take(m8) =~= cs8);
            assert(cs.take(m7) =~= cs7);
            assert(cs.take(m6) =~= cs6);
            assert(cs.take(m5) =~= cs5);
            assert(cs.take(m4) =~= cs4);
            assert(cs.take(m3) =~= cs3);
            assert(cs.take(m2) =~= cs2);
            assert(cs.take(m1) =~= cs1);
            assert forall|w: Seq<Option<u64>>|
                limbs_ranged(w, a.limbs@) && limbs_ranged(w, b.limbs@)
                    && #[trigger] constraints_hold_from(cs, start, w)
                implies decoded(w, a.limbs@) == decoded(w, div.limbs@) * decoded(w, b.limbs@)
                        + decoded(w, rem.limbs@)
                    && decoded(w, rem.limbs@) <= decoded(w, b.limbs@)
                    && limbs_ranged(w, div.limbs@) && limbs_ranged(w, rem.limbs@) by {
                assert(constraints_hold_from(cs1, start, w)) by {
                    assert forall|k2: int| start <= k2 < cs1.len()
                        implies constraint_holds(#[trigger] cs1[k2], w) by {
                        assert(cs1[k2] == cs.take(m1)[k2]);
                        assert(cs.take(m1)[k2] == cs[k2]);
                    }
                }
                assert(constraints_hold_from(cs2, m1, w)) by {
                    assert forall|k2: int| m1 <= k2 < cs2.len()
                        implies constraint_holds(#[trigger] cs2[k2], w) by {
                        assert(cs2[k2] == cs.take(m2)[k2]);
                        assert(cs.take(m2)[k2] == cs[k2]);
                    }
                }
                assert(constraints_hold_from(cs3, m2, w)) by {
                    assert forall|k2: int| m2 <= k2 < cs3.len()
                        implies constraint_holds(#[trigger] cs3[k2], w) by {
                        assert(cs3[k2] == cs.take(m3)[k2]);
                        assert(cs.take(m3)[k2] == cs[k2]);
                    }
                }
                assert(constraints_hold_from(cs4, m3, w)) by {
                    assert forall|k2: int| m3 <= k2 < cs4.len()
                        implies constraint_holds(#[trigger] cs4[k2], w) by {
                        assert(cs4[k2] == cs.take(m4)[k2]);
                        assert(cs.take(m4)[k2] == cs[k2]);
                    }
                }
                assert(constraints_hold_from(cs5, m4, w)) by {
                    assert forall|k2: int| m4 <= k2 < cs5.len()
                        implies constraint_holds(#[trigger] cs5[k2], w) by {
                        assert(cs5[k2] == cs.take(m5)[k2]);
                        assert(cs.take(m5)[k2] == cs[k2]);
                    }
                }
                assert(constraints_hold_from(cs6, m5, w)) by {
                    assert forall|k2: int| m5 <= k2 < cs6.len()
                        implies constraint_holds(#[trigger] cs6[k2], w) by {
                        assert(cs6[k2] == cs.take(m6)[k2]);
                        assert(cs.take(m6)[k2] == cs[k2]);
                    }
                }
                assert(constraints_hold_from(cs7, m6, w)) by {
                    assert forall|k2: int| m6 <= k2 < cs7.len()
                        implies constraint_holds(#[trigger] cs7[k2], w) by {
                        assert(cs7[k2] == cs.take(m7)[k2]);
                        assert(cs.take(m7)[k2] == cs[k2]);
                    }
                }
                assert(constraints_hold_from(cs8, m7, w)) by {
                    assert forall|k2: int| m7 <= k2 < cs8.len()
                        implies constraint_holds(#[trigger] cs8[k2], w) by {
                        assert(cs8[k2] == cs.take(m8)[k2]);
                        assert(cs.take(m8)[k2] == cs[k2]);
                    }
                }
                // The padded operands carry the original values.
                assert(decoded(w, pa.limbs@) == decoded(w, a.limbs@));
                assert(decoded(w, pb.limbs@) == decoded(w, b.limbs@));
                assert(limbs_ranged(w, pa.limbs@) && limbs_ranged(w, pb.limbs@));
                // The fresh quotient and remainder limbs are ranged.
                assert(limbs_ranged(w, div.limbs@));
                assert(limbs_ranged(w, rem.limbs@));
                // div * b, the sum with rem, and the connection to a.
                assert(decoded(w, div_b.limbs@) == decoded(w, div.limbs@) * decoded(
                    w,
                    pb.limbs@,
                ) && limbs_ranged(w, div_b.limbs@));
                assert(decoded(w, s1.limbs@) == decoded(w, div_b.limbs@) && decoded(w, s2.limbs@)
                    == decoded(w, rem.limbs@) && limbs_ranged(w, s1.limbs@) && limbs_ranged(
                    w,
                    s2.limbs@,
                ));
                assert(decoded(w, div_b_plus_rem.limbs@) == decoded(w, s1.limbs@) + decoded(
                    w,
                    s2.limbs@,
                ) && limbs_ranged(w, div_b_plus_rem.limbs@));
                assert(decoded(w, a.limbs@) == decoded(w, div_b_plus_rem.limbs@));
                // rem <= b from the asserted comparator output.
                assert(constraint_holds(cs[cs.len() - 1], w));
                assert(tset(w, cmp_rem_b.target) && tv(w, cmp_rem_b.target) == (if decoded(
                    w,
                    rem.limbs@,
                ) <= decoded(w, pb.limbs@) {
                    1int
                } else {
                    0int
                }));
                assert(tv(w, cmp_rem_b.target) == 1);
            }
        }
        Ok((div, rem))
    }

    /// Enforce equality of two possibly different-length values: overlapping
    /// low limbs are connected pairwise, every excess high limb of the longer
    /// operand is asserted zero. For ranged limbs the recorded constraints are
    /// satisfied exactly when the denoted integers are equal.
    pub fn connect_biguint(&mut self, lhs: &BigUintTarget, rhs: &BigUintTarget)
        ensures
            final(self).num_targets == old(self).num_targets,
            final(self).generators@ == old(self).generators@,
            final(self).constraints@.take(old(self).constraints@.len() as int)
                == old(self).constraints@,
            final(self).constraints@.len() >= old(self).constraints@.len(),
            forall|w: Seq<Option<u64>>|
                limbs_ranged(w, lhs.limbs@) && limbs_ranged(w, rhs.limbs@)
                    ==> (#[trigger] constraints_hold_from(
                        final(self).constraints@,
                        old(self).constraints@.len() as int,
                        w,
                    ) <==> decoded(w, lhs.limbs@) == decoded(w, rhs.limbs@)),
    {
        let ghost start = self.constraints@.len() as int;
        let min_limbs = if lhs.num_limbs() < rhs.num_limbs() {
            lhs.num_limbs()
        } else {
            rhs.num_limbs()
        };
        let mut i: usize = 0;
        while i < min_limbs
            invariant
                min_limbs <= lhs.limbs@.len(),
                min_limbs <= rhs.limbs@.len(),
                i <= min_limbs,
                self.num_targets == old(self).num_targets,
                self.generators@ == old(self).generators@,
                start == old(self).constraints@.len() as int,
                self.constraints@.len() == start + i,
                self.constraints@.take(start) == old(self).constraints@,
                forall|q: int| 0 <= q < i as int
                    ==> self.constraints@[start + q] == (Constraint::ConnectVals {
                        a: lhs.limbs@[q].0,
                        b: rhs.limbs@[q].0,
                    }),
            decreases min_limbs - i,
        {
            self.connect_u32(lhs.get_limb(i), rhs.get_limb(i));
            proof {
                assert(self.constraints@.take(start) =~= old(self).constraints@);
            }
            i = i + 1;
        }
        let mut j: usize = min_limbs;
        while j < lhs.num_limbs()
            invariant
                min_limbs <= lhs.limbs@.len(),
                min_limbs <= rhs.limbs@.len(),
                min_limbs <= j,
                j <= lhs.limbs@.len(),
                self.num_targets == old(self).num_targets,
                self.generators@ == old(self).generators@,
                start == old(self).constraints@.len() as int,
                self.constraints@.len() == start + min_limbs + (j - min_limbs),
                self.constraints@.take(start) == old(self).constraints@,
                forall|q: int| 0 <= q < min_limbs as int
                    ==> self.constraints@[start + q] == (Constraint::ConnectVals {
                        a: lhs.limbs@[q].0,
                        b: rhs.limbs@[q].0,
                    }),
                forall|q: int| min_limbs as int <= q < j as int
                    ==> self.constraints@[start + q] == (Constraint::AssertZero {
                        t: lhs.limbs@[q].0,
                    }),
            decreases lhs.limbs@.len() - j,
        {
            self.assert_zero_u32(lhs.get_limb(j));
            proof {
                assert(self.constraints@.take(start) =~= old(self).constraints@);
            }
            j = j + 1;
        }
        let mut k: usize = min_limbs;
        while k < rhs.num_limbs()
            invariant
                min_limbs <= lhs.limbs@.len(),
                min_limbs <= rhs.limbs@.len(),
                min_limbs == lhs.limbs@.len() || min_limbs == rhs.limbs@.len(),
                min_limbs <= k,
                k <= rhs.limbs@.len(),
                k > min_limbs ==> min_limbs == lhs.limbs@.len(),
                self.num_targets == old(self).num_targets,
                self.generators@ == old(self).generators@,
                start == old(self).constraints@.len() as int,
                self.constraints@.len() == start + lhs.limbs@.len() + (k - min_limbs),
                self.constraints@.take(start) == old(self).constraints@,
                forall|q: int| 0 <= q < min_limbs as int
                    ==> self.constraints@[start + q] == (Constraint::ConnectVals {
                        a: lhs.limbs@[q].0,
                        b: rhs.limbs@[q].0,
                    }),
                forall|q: int| min_limbs as int <= q < lhs.limbs@.len()
                    ==> self.constraints@[start + q] == (Constraint::AssertZero {
                        t: lhs.limbs@[q].0,
                    }),
                forall|q: int| min_limbs as int <= q < k as int
                    ==> self.constraints@[start + (lhs.limbs@.len() - min_limbs) + q]
                        == (Constraint::AssertZero { t: rhs.limbs@[q].0 }),
            decreases rhs.limbs@.len() - k,
        {
            proof {
                if k == min_limbs && min_limbs < rhs.limbs@.len() && min_limbs < lhs.limbs@.len() {
                    assert(false);
                }
            }
            self.assert_zero_u32(rhs.get_limb(k));
            proof {
                assert(self.constraints@.take(start) =~= old(self).constraints@);
            }
            k = k + 1;
        }
        proof {
            lemma_connect_iff(
                self.constraints@,
                start,
                lhs.limbs@,
                rhs.limbs@,
                min_limbs as int,
            );
        }
    }
}

/// Zero-valued limbs above position `n` do not change the decoded value.
proof fn lemma_decoded_zero_pad(w: Seq<Option<u64>>, full: Seq<U32Target>, n: int)
    requires
        0 <= n <= full.len(),
        forall|q: int| n <= q < full.len() ==> u32v(w, #[trigger] full[q]) == 0,
    ensures
        decoded(w, full) == decoded(w, full.take(n)),
    decreases full.len() - n,
{
    if n == full.len() {
        assert(full.take(n) =~= full);
    } else {
        assert(full.take(n + 1) =~= full.take(n).push(full[n]));
        lemma_decoded_snoc(w, full.take(n), full[n]);
        assert(pow_b(full.take(n).len()) * u32v(w, full[n]) == 0) by (nonlinear_arith)
            requires u32v(w, full[n]) == 0;
        lemma_decoded_zero_pad(w, full, n + 1);
    }
}

/// The recorded pairwise-equality and excess-zero constraints are satisfied
/// exactly when the two ranged limb lists denote the same integer.
proof fn lemma_connect_iff(
    cs: Seq<Constraint>,
    start: int,
    lhs: Seq<U32Target>,
    rhs: Seq<U32Target>,
    min: int,
)
    requires
        0 <= start,
        min == if lhs.len() <= rhs.len() { lhs.len() as int } else { rhs.len() as int },
        cs.len() == start + lhs.len() + rhs.len() - min,
        forall|q: int| 0 <= q < min ==> cs[start + q] == (Constraint::ConnectVals {
            a: lhs[q].0,
            b: rhs[q].0,
        }),
        forall|q: int| min <= q < lhs.len() ==> cs[start + q] == (Constraint::AssertZero {
            t: lhs[q].0,
        }),
        forall|q: int| min <= q < rhs.len()
            ==> cs[start + (lhs.len() - min) + q] == (Constraint::AssertZero { t: rhs[q].0 }),
    ensures
        forall|w: Seq<Option<u64>>|
            limbs_ranged(w, lhs) && limbs_ranged(w, rhs)
                ==> (#[trigger] constraints_hold_from(cs, start, w) <==> decoded(w, lhs)
                    == decoded(w, rhs)),
{
    assert forall|w: Seq<Option<u64>>|
        limbs_ranged(w, lhs) && limbs_ranged(w, rhs)
        implies (#[trigger] constraints_hold_from(cs, start, w) <==> decoded(w, lhs)
            == decoded(w, rhs)) by {
        if constraints_hold_from(cs, start, w) {
            assert forall|q: int| 0 <= q < min
                implies u32v(w, lhs[q]) == u32v(w, #[trigger] rhs[q]) by {
                assert(constraint_holds(cs[start + q], w));
            }
            assert forall|q: int| min <= q < lhs.len()
                implies u32v(w, #[trigger] lhs[q]) == 0 by {
                assert(constraint_holds(cs[start + q], w));
            }
            assert forall|q: int| min <= q < rhs.len()
                implies u32v(w, #[trigger] rhs[q]) == 0 by {
                assert(constraint_holds(cs[start + (lhs.len() - min) + q], w));
            }
            lemma_decoded_pointwise(w, lhs, rhs, min);
        }
        if decoded(w, lhs) == decoded(w, rhs) {
            lemma_decoded_unique(w, lhs, rhs, min);
            assert forall|k2: int| start <= k2 < cs.len()
                implies constraint_holds(#[trigger] cs[k2], w) by {
                if k2 < start + min {
                    assert(cs[k2] == (Constraint::ConnectVals {
                        a: lhs[k2 - start].0,
                        b: rhs[k2 - start].0,
                    }));
                } else if k2 < start + lhs.len() {
                    assert(cs[k2] == (Constraint::AssertZero { t: lhs[k2 - start].0 }));
                } else {
                    let q = k2 - start - (lhs.len() - min);
                    assert(cs[k2] == (Constraint::AssertZero { t: rhs[q].0 }));
                }
            }
        }
    }
}

/// Pointwise equal low limbs and zero high limbs give equal decoded values.
proof fn lemma_decoded_pointwise(
    w: Seq<Option<u64>>,
    lhs: Seq<U32Target>,
    rhs: Seq<U32Target>,
    min: int,
)
    requires
        min == if lhs.len() <= rhs.len() { lhs.len() as int } else { rhs.len() as int },
        forall|q: int| 0 <= q < min ==> u32v(w, #[trigger] lhs[q]) == u32v(w, rhs[q]),
        forall|q: int| min <= q < lhs.len() ==> u32v(w, #[trigger] lhs[q]) == 0,
        forall|q: int| min <= q < rhs.len() ==> u32v(w, #[trigger] rhs[q]) == 0,
    ensures
        decoded(w, lhs) == decoded(w, rhs),
    decreases lhs.len() + rhs.len(),
{
    if lhs.len() == 0 && rhs.len() == 0 {
    } else if min == 0 {
        if lhs.len() > 0 {
            assert(u32v(w, lhs[0]) == 0);
            assert forall|q: int| 0 <= q < lhs.drop_first().len()
                implies u32v(w, #[trigger] lhs.drop_first()[q]) == 0 by {
                assert(lhs.drop_first()[q] == lhs[q + 1]);
            }
            lemma_decoded_pointwise(w, lhs.drop_first(), rhs, 0);
        } else {
            assert(u32v(w, rhs[0]) == 0);
            assert forall|q: int| 0 <= q < rhs.drop_first().len()
                implies u32v(w, #[trigger] rhs.drop_first()[q]) == 0 by {
                assert(rhs.drop_first()[q] == rhs[q + 1]);
            }
            lemma_decoded_pointwise(w, lhs, rhs.drop_first(), 0);
        }
    } else {
        assert(u32v(w, lhs[0]) == u32v(w, rhs[0]));
        assert forall|q: int| 0 <= q < min - 1
            implies u32v(w, #[trigger] lhs.drop_first()[q]) == u32v(w, rhs.drop_first()[q]) by {
            assert(lhs.drop_first()[q] == lhs[q + 1]);
            assert(rhs.drop_first()[q] == rhs[q + 1]);
        }
        assert forall|q: int| min - 1 <= q < lhs.drop_first().len()
            implies u32v(w, #[trigger] lhs.drop_first()[q]) == 0 by {
            assert(lhs.drop_first()[q] == lhs[q + 1]);
        }
        assert forall|q: int| min - 1 <= q < rhs.drop_first().len()
            implies u32v(w, #[trigger] rhs.drop_first()[q]) == 0 by {
            assert(rhs.drop_first()[q] == rhs[q + 1]);
        }
        lemma_decoded_pointwise(w, lhs.drop_first(), rhs.drop_first(), min - 1);
    }
}

/// Base-2^32 representations are unique: equal decoded values of ranged limb
/// lists force pairwise equal low limbs and zero excess high limbs.
proof fn lemma_decoded_unique(
    w: Seq<Option<u64>>,
    lhs: Seq<U32Target>,
    rhs: Seq<U32Target>,
    min: int,
)
    requires
        min == if lhs.len() <= rhs.len() { lhs.len() as int } else { rhs.len() as int },
        limbs_ranged(w, lhs),
        limbs_ranged(w, rhs),
        decoded(w, lhs) == decoded(w, rhs),
    ensures
        forall|q: int| 0 <= q < min ==> u32v(w, #[trigger] lhs[q]) == u32v(w, rhs[q]),
        forall|q: int| min <= q < lhs.len() ==> u32v(w, #[trigger] lhs[q]) == 0,
        forall|q: int| min <= q < rhs.len() ==> u32v(w, #[trigger] rhs[q]) == 0,
    decreases lhs.len() + rhs.len(),
{
    if lhs.len() == 0 && rhs.len() == 0 {
    } else if lhs.len() == 0 {
        lemma_decoded_bound(w, rhs.drop_first());
        assert(u32_ranged(w, rhs[0]));
        assert(LIMB_BASE * decoded(w, rhs.drop_first()) >= 0) by (nonlinear_arith)
            requires decoded(w, rhs.drop_first()) >= 0;
        assert(u32v(w, rhs[0]) == 0);
        assert(LIMB_BASE * decoded(w, rhs.drop_first()) == 0);
        assert(decoded(w, rhs.drop_first()) == 0) by (nonlinear_arith)
            requires LIMB_BASE * decoded(w, rhs.drop_first()) == 0, LIMB_BASE > 0;
        assert(limbs_ranged(w, rhs.drop_first())) by {
            assert forall|q: int| 0 <= q < rhs.drop_first().len()
                implies u32_ranged(w, #[trigger] rhs.drop_first()[q]) by {
                assert(rhs.drop_first()[q] == rhs[q + 1]);
            }
        }
        lemma_decoded_unique(w, lhs, rhs.drop_first(), 0);
        assert forall|q: int| 0 <= q < rhs.len()
            implies u32v(w, #[trigger] rhs[q]) == 0 by {
            if q > 0 {
                assert(rhs.drop_first()[q - 1] == rhs[q]);
            }
        }
    } else if rhs.len() == 0 {
        lemma_decoded_bound(w, lhs.drop_first());
        assert(u32_ranged(w, lhs[0]));
        assert(LIMB_BASE * decoded(w, lhs.drop_first()) >= 0) by (nonlinear_arith)
            requires decoded(w, lhs.drop_first()) >= 0;
        assert(u32v(w, lhs[0]) == 0);
        assert(LIMB_BASE * decoded(w, lhs.drop_first()) == 0);
        assert(decoded(w, lhs.drop_first()) == 0) by (nonlinear_arith)
            requires LIMB_BASE * decoded(w, lhs.drop_first()) == 0, LIMB_BASE > 0;
        assert(limbs_ranged(w, lhs.drop_first())) by {
            assert forall|q: int| 0 <= q < lhs.drop_first().len()
                implies u32_ranged(w, #[trigger] lhs.drop_first()[q]) by {
                assert(lhs.drop_first()[q] == lhs[q + 1]);
            }
        }
        lemma_decoded_unique(w, lhs.drop_first(), rhs, 0);
        assert forall|q: int| 0 <= q < lhs.len()
            implies u32v(w, #[trigger] lhs[q]) == 0 by {
            if q > 0 {
                assert(lhs.drop_first()[q - 1] == lhs[q]);
            }
        }
    } else {
        let la = decoded(w, lhs.drop_first());
        let lb = decoded(w, rhs.drop_first());
        assert forall|q: int| 0 <= q < lhs.drop_first().len()
            implies u32_ranged(w, #[trigger] lhs.drop_first()[q]) by {
            assert(lhs.drop_first()[q] == lhs[q + 1]);
        }
        assert forall|q: int| 0 <= q < rhs.drop_first().len()
            implies u32_ranged(w, #[trigger] rhs.drop_first()[q]) by {
            assert(rhs.drop_first()[q] == rhs[q + 1]);
        }
        lemma_decoded_bound(w, lhs.drop_first());
        lemma_decoded_bound(w, rhs.drop_first());
        assert(u32_ranged(w, lhs[0]));
        assert(u32_ranged(w, rhs[0]));
        assert(u32v(w, lhs[0]) == u32v(w, rhs[0]) && la == lb) by (nonlinear_arith)
            requires
                u32v(w, lhs[0]) + LIMB_BASE * la == u32v(w, rhs[0]) + LIMB_BASE * lb,
                0 <= u32v(w, lhs[0]) < LIMB_BASE,
                0 <= u32v(w, rhs[0]) < LIMB_BASE,
                la >= 0,
                lb >= 0;
        assert(limbs_ranged(w, lhs.drop_first())) by {
            assert forall|q: int| 0 <= q < lhs.drop_first().len()
                implies u32_ranged(w, #[trigger] lhs.drop_first()[q]) by {
                assert(lhs.drop_first()[q] == lhs[q + 1]);
            }
        }
        assert(limbs_ranged(w, rhs.drop_first())) by {
            assert forall|q: int| 0 <= q < rhs.drop_first().len()
                implies u32_ranged(w, #[trigger] rhs.drop_first()[q]) by {
                assert(rhs.drop_first()[q] == rhs[q + 1]);
            }
        }
        lemma_decoded_unique(w, lhs.drop_first(), rhs.drop_first(), min - 1);
        assert forall|q: int| 0 <= q < min
            implies u32v(w, #[trigger] lhs[q]) == u32v(w, rhs[q]) by {
            if q > 0 {
                assert(lhs.drop_first()[q - 1] == lhs[q]);
                assert(rhs.drop_first()[q - 1] == rhs[q]);
            }
        }
        assert forall|q: int| min <= q < lhs.len()
            implies u32v(w, #[trigger] lhs[q]) == 0 by {
            assert(lhs.drop_first()[q - 1] == lhs[q]);
        }
        assert forall|q: int| min <= q < rhs.len()
            implies u32v(w, #[trigger] rhs[q]) == 0 by {
            assert(rhs.drop_first()[q - 1] == rhs[q]);
        }
    }
}

} // verus!
