//! A gate for inserting a value into a list at a non-deterministic location.
//!
//! Given a list `L` of `vec_size` elements, an index `K` (a circuit value)
//! and an element `E`, this gate constrains an output list of length
//! `vec_size + 1` to equal `L` with `E` inserted at position `K`. `K` must
//! denote an integer in `[0, vec_size]`; `K == vec_size` appends `E` at the
//! end (rounds run from 0 through `vec_size` inclusive, so the append case is
//! handled by the ordinary per-round rules).
//!
//! Per round `r`, a boolean `insert_here_r` is forced to equal 1 exactly when
//! `r == K` by the inverse gadget: with `diff_r = r - K` and a prover-supplied
//! `equality_dummy_r` the two constraints `equality_dummy_r * diff_r =
//! 1 - insert_here_r` and `insert_here_r * diff_r = 0` hold exactly when
//! `insert_here_r` is that indicator (the prover supplies `diff_r`'s inverse
//! when `r != K`, anything otherwise). A running accumulator
//! `already_inserted` turns 1 at the insertion round and stays 1, and each
//! output row is `E` at the insertion round, the unshifted item before it and
//! the shifted item after it. All constraints have degree at most 2.
//!
//! Each logical value occupies one wire; constraint evaluation lifts wire
//! values into the degree-2 extension, so the same expressions can be checked
//! against extension-field challenges.

use vstd::prelude::*;
use crate::field::{fp, is_felt, fadd, fsub, fmul, f_add, f_sub, f_mul, f_try_inverse,
    lemma_fsub_zero_iff, lemma_fsub_zero_right, lemma_fmul_zero, lemma_fmul_comm,
    FIELD_ORDER, SMALL_INVERSE_BOUND, small_inverse, lemma_neg_inverse};
use crate::extension::{Ext, ext_wf, ext_view, eadd, esub, emul, embed, ext_zero_view,
    ext_from_base, ext_add, ext_sub, ext_mul,
    lemma_embed_add, lemma_embed_sub, lemma_embed_mul, lemma_esub_self};
use crate::target::Target;
use crate::witness::{Witness, tv, tset, wit_wf, wit_extends, lemma_extends_preserves,
    lemma_extends_trans, lemma_tv_felt};
use crate::CircuitError;

verus! {

/// Largest supported list length; keeps all wire-index arithmetic well inside
/// `usize` and every round number a canonical field element.
pub const MAX_VEC_SIZE: usize = 0x0100_0000;

/// Offsets of the six intermediate wires of one round.
pub const ROUND_INSERT_HERE: usize = 0;
pub const ROUND_EQUALITY_DUMMY: usize = 1;
pub const ROUND_NEW_ITEM: usize = 2;
pub const ROUND_NEW_ITEM_PLUS_OLD: usize = 3;
pub const ROUND_ALREADY_INSERTED: usize = 4;
pub const ROUND_NOT_ALREADY_INSERTED: usize = 5;

/// A gate for inserting a value into a list at a non-deterministic location.
#[derive(Clone, Copy, Debug, PartialEq, Eq, Structural)]
pub struct InsertionGate {
    pub vec_size: usize,
}

/// Wire layout, as pure index arithmetic. Slot 0 holds the insertion index,
/// slot 1 the element to insert, then the input list, the output list, and
/// six intermediate wires per round.
pub open spec fn idx_insertion_index() -> int {
    0
}

pub open spec fn idx_element_to_insert() -> int {
    1
}

pub open spec fn idx_list_item(i: int) -> int {
    2 + i
}

pub open spec fn idx_output_list_item(vs: int, i: int) -> int {
    vs + 2 + i
}

pub open spec fn idx_round_wire(vs: int, r: int, j: int) -> int {
    2 * vs + 3 + 6 * r + j
}

pub open spec fn gate_num_wires(vs: int) -> int {
    8 * vs + 9
}

/// The target sitting at offset `j` of the row starting at `base`.
pub open spec fn wire(base: int, j: int) -> Target {
    Target { index: (base + j) as usize }
}

/// The extension-level views of one row's wire values, the witness values
/// embedded into the extension.
pub open spec fn row_vars(w: Seq<Option<u64>>, base: int, vs: int) -> Seq<(int, int)> {
    Seq::new(gate_num_wires(vs) as nat, |j: int| embed(tv(w, wire(base, j))))
}

/// The `j`-th of the seven constraints of round `r` (`0 <= r <= vs`), as a
/// function of the row's wire values. Every constraint must evaluate to the
/// extension's zero for the row to be valid.
pub open spec fn round_constraint(vs: int, vars: Seq<(int, int)>, r: int, j: int) -> (int, int) {
    let kv = vars[idx_insertion_index()];
    let e = vars[idx_element_to_insert()];
    let ih = vars[idx_round_wire(vs, r, ROUND_INSERT_HERE as int)];
    let d = vars[idx_round_wire(vs, r, ROUND_EQUALITY_DUMMY as int)];
    let ni = vars[idx_round_wire(vs, r, ROUND_NEW_ITEM as int)];
    let npo = vars[idx_round_wire(vs, r, ROUND_NEW_ITEM_PLUS_OLD as int)];
    let ai = vars[idx_round_wire(vs, r, ROUND_ALREADY_INSERTED as int)];
    let nai = vars[idx_round_wire(vs, r, ROUND_NOT_ALREADY_INSERTED as int)];
    let out = vars[idx_output_list_item(vs, r)];
    let diff = esub(embed(r), kv);
    let ai_prev = vars[idx_round_wire(vs, r - 1, ROUND_ALREADY_INSERTED as int)];
    if j == 0 {
        esub(emul(d, diff), esub(embed(1), ih))
    } else if j == 1 {
        emul(ih, diff)
    } else if j == 2 {
        esub(ni, emul(ih, e))
    } else if j == 3 {
        if r == 0 {
            esub(npo, ni)
        } else {
            esub(npo, eadd(ni, emul(ai_prev, vars[idx_list_item(r - 1)])))
        }
    } else if j == 4 {
        if r == 0 {
            esub(ai, ih)
        } else {
            esub(ai, eadd(ai_prev, ih))
        }
    } else if j == 5 {
        esub(nai, esub(embed(1), ai))
    } else {
        if r < vs {
            esub(out, eadd(npo, emul(nai, vars[idx_list_item(r)])))
        } else {
            esub(out, npo)
        }
    }
}

/// The row at wire offset `base` is a valid insertion row: every wire is
/// assigned, and all constraints of all rounds evaluate to zero on the
/// embedded wire values.
pub open spec fn insertion_row_holds(vs: int, base: int, w: Seq<Option<u64>>) -> bool {
    &&& forall|j: int| 0 <= j < gate_num_wires(vs) ==> tset(w, #[trigger] wire(base, j))
    &&& forall|j: int| 0 <= j < gate_num_wires(vs) ==> tv(w, #[trigger] wire(base, j)) < fp()
    &&& forall|r: int, j: int| 0 <= r <= vs && 0 <= j < 7
            ==> #[trigger] round_constraint(vs, row_vars(w, base, vs), r, j) == ext_zero_view()
    &&& esub(
        row_vars(w, base, vs)[idx_round_wire(vs, vs, ROUND_ALREADY_INSERTED as int)],
        embed(1),
    ) == ext_zero_view()
}

/// What output row `i` must hold, in terms of the input wires of witness
/// `w0`: the element at the insertion index, the unshifted item before it,
/// the shifted item after it.
pub open spec fn inserted_value(w0: Seq<Option<u64>>, base: int, vs: int, i: int) -> int {
    let k = tv(w0, wire(base, idx_insertion_index()));
    if i < k {
        tv(w0, wire(base, idx_list_item(i)))
    } else if i == k {
        tv(w0, wire(base, idx_element_to_insert()))
    } else {
        tv(w0, wire(base, idx_list_item(i - 1)))
    }
}

pub open spec fn gate_wf(g: InsertionGate) -> bool {
    g.vec_size <= MAX_VEC_SIZE
}

/// The row can be generated: it lies inside the store, its input wires hold
/// values with the index in range, and its intermediate and output wires are
/// still unassigned.
pub open spec fn insertion_row_ready(vs: int, base: int, w: Seq<Option<u64>>) -> bool {
    &&& base + gate_num_wires(vs) <= usize::MAX
    &&& base + gate_num_wires(vs) <= w.len()
    &&& forall|j: int| 0 <= j < vs + 2 ==> tset(w, #[trigger] wire(base, j))
    &&& tv(w, wire(base, idx_insertion_index())) <= vs
    &&& forall|j: int| vs + 2 <= j < gate_num_wires(vs) ==> !tset(w, #[trigger] wire(base, j))
}

/// Extension views of a vector of extension elements.
pub open spec fn views_of(vars: Seq<Ext>) -> Seq<(int, int)> {
    vars.map_values(|x: Ext| ext_view(x))
}

/// The embedded values of a row of wire targets in a witness.
pub open spec fn target_row_vars(w: Seq<Option<u64>>, ts: Seq<Target>) -> Seq<(int, int)> {
    Seq::new(ts.len(), |q: int| embed(tv(w, ts[q])))
}

impl InsertionGate {
    pub fn new(vec_size: usize) -> (g: InsertionGate)
        requires
            vec_size <= MAX_VEC_SIZE,
        ensures
            g.vec_size == vec_size,
            gate_wf(g),
    {
        InsertionGate { vec_size }
    }

    /// The wire holding the insertion index.
    pub fn wires_insertion_index() -> (i: usize)
        ensures
            i as int == idx_insertion_index(),
    {
        0
    }

    /// The wire holding the element to insert.
    pub fn wires_element_to_insert() -> (r: core::ops::Range<usize>)
        ensures
            r.start as int == idx_element_to_insert(),
            r.end == r.start + 1,
    {
        1..2
    }

    /// The wire holding input list item `i`.
    pub fn wires_list_item(i: usize) -> (r: core::ops::Range<usize>)
        requires
            i <= MAX_VEC_SIZE,
        ensures
            r.start as int == idx_list_item(i as int),
            r.end == r.start + 1,
    {
        (i + 2)..(i + 3)
    }

    pub fn start_of_output_wires(&self) -> (s: usize)
        requires
            gate_wf(*self),
        ensures
            s as int == idx_output_list_item(self.vec_size as int, 0),
    {
        self.vec_size + 2
    }

    /// The wire holding output list item `i` (`0 <= i <= vec_size`).
    pub fn wires_output_list_item(&self, i: usize) -> (r: core::ops::Range<usize>)
        requires
            gate_wf(*self),
            i <= self.vec_size,
        ensures
            r.start as int == idx_output_list_item(self.vec_size as int, i as int),
            r.end == r.start + 1,
    {
        let s = self.vec_size + 2 + i;
        s..(s + 1)
    }

    pub fn start_of_intermediate_wires(&self) -> (s: usize)
        requires
            gate_wf(*self),
        ensures
            s as int == idx_round_wire(self.vec_size as int, 0, 0),
    {
        2 * self.vec_size + 3
    }

    /// Six intermediate wires are used per round: `insert_here`,
    /// `equality_dummy`, `new_item`, `new_item_plus_old_item`,
    /// `already_inserted` and `not_already_inserted`.
    pub fn intermediate_wires_per_round() -> (n: usize)
        ensures
            n == 6,
    {
        6
    }

    /// The wire holding round `r`'s `insert_here` indicator.
    pub fn insert_here_for_round_r(&self, r: usize) -> (w: core::ops::Range<usize>)
        requires
            gate_wf(*self),
            r <= self.vec_size,
        ensures
            w.start as int == idx_round_wire(self.vec_size as int, r as int, ROUND_INSERT_HERE as int),
            w.end == w.start + 1,
    {
        let s = 2 * self.vec_size + 3 + 6 * r;
        s..(s + 1)
    }

    /// The wire holding round `r`'s `equality_dummy` (the inverse of `r - K`
    /// when `r != K`).
    pub fn equality_dummy_for_round_r(&self, r: usize) -> (w: core::ops::Range<usize>)
        requires
            gate_wf(*self),
            r <= self.vec_size,
        ensures
            w.start as int == idx_round_wire(self.vec_size as int, r as int, ROUND_EQUALITY_DUMMY as int),
            w.end == w.start + 1,
    {
        let s = 2 * self.vec_size + 3 + 6 * r + 1;
        s..(s + 1)
    }

    /// The wire holding round `r`'s `new_item` value.
    pub fn new_item_for_round_r(&self, r: usize) -> (w: core::ops::Range<usize>)
        requires
            gate_wf(*self),
            r <= self.vec_size,
        ensures
            w.start as int == idx_round_wire(self.vec_size as int, r as int, ROUND_NEW_ITEM as int),
            w.end == w.start + 1,
    {
        let s = 2 * self.vec_size + 3 + 6 * r + 2;
        s..(s + 1)
    }

    /// The wire holding round `r`'s `new_item_plus_old_item` value.
    pub fn new_item_plus_old_item_for_round_r(&self, r: usize) -> (w: core::ops::Range<usize>)
        requires
            gate_wf(*self),
            r <= self.vec_size,
        ensures
            w.start as int == idx_round_wire(self.vec_size as int, r as int, ROUND_NEW_ITEM_PLUS_OLD as int),
            w.end == w.start + 1,
    {
        let s = 2 * self.vec_size + 3 + 6 * r + 3;
        s..(s + 1)
    }

    /// The wire holding round `r`'s `already_inserted` accumulator.
    pub fn already_inserted_for_round_r(&self, r: usize) -> (w: core::ops::Range<usize>)
        requires
            gate_wf(*self),
            r <= self.vec_size,
        ensures
            w.start as int == idx_round_wire(self.vec_size as int, r as int, ROUND_ALREADY_INSERTED as int),
            w.end == w.start + 1,
    {
        let s = 2 * self.vec_size + 3 + 6 * r + 4;
        s..(s + 1)
    }

    /// The wire holding round `r`'s `not_already_inserted` value.
    pub fn not_already_inserted_for_round_r(&self, r: usize) -> (w: core::ops::Range<usize>)
        requires
            gate_wf(*self),
            r <= self.vec_size,
        ensures
            w.start as int == idx_round_wire(self.vec_size as int, r as int, ROUND_NOT_ALREADY_INSERTED as int),
            w.end == w.start + 1,
    {
        let s = 2 * self.vec_size + 3 + 6 * r + 5;
        s..(s + 1)
    }

    pub fn num_wires(&self) -> (n: usize)
        requires
            gate_wf(*self),
        ensures
            n as int == gate_num_wires(self.vec_size as int),
    {
        8 * self.vec_size + 9
    }

    pub fn num_constants(&self) -> (n: usize)
        ensures
            n == 0,
    {
        0
    }

    /// The maximum total degree of any constraint expression of this gate.
    pub fn degree(&self) -> (n: usize)
        ensures
            n == 2,
    {
        2
    }

    pub fn num_constraints(&self) -> (n: usize)
        requires
            gate_wf(*self),
        ensures
            n as int == 7 * (self.vec_size as int + 1) + 1,
    {
        7 * (self.vec_size + 1) + 1
    }

    /// A stable identifier for this row kind and its parameters, matched
    /// against a verifying key: the kind's name, the list length and the
    /// extension degree. Distinct list lengths give distinct identifiers.
    pub fn id(&self) -> (s: String)
        requires
            gate_wf(*self),
        ensures
            s@ == spec_gate_id(self.vec_size as nat),
    {
        let mut s = crate::insertion::string_from_literal("InsertionGate vec_size=");
        let digits = decimal_string(self.vec_size as u64);
        <String as vstd::string::StringExecFns>::append(&mut s, digits.as_str());
        <String as vstd::string::StringExecFns>::append(&mut s, " ext_degree=2");
        s
    }

    /// Evaluate this gate's constraints on one row of wire values. The result
    /// lists, round by round, the seven constraint values of each round; the
    /// row is valid exactly when all of them are zero.
    #[verifier::rlimit(60)]
    pub fn eval_unfiltered(&self, vars: &Vec<Ext>) -> (res: Vec<Ext>)
        requires
            gate_wf(*self),
            vars@.len() == gate_num_wires(self.vec_size as int),
            forall|i: int| 0 <= i < vars@.len() ==> ext_wf(#[trigger] vars@[i]),
        ensures
            res@.len() == 7 * (self.vec_size as int + 1) + 1,
            forall|i: int| 0 <= i < res@.len() ==> ext_wf(#[trigger] res@[i]),
            forall|r: int, j: int| 0 <= r <= self.vec_size as int && 0 <= j < 7
                ==> ext_view(res@[7 * r + j])
                    == #[trigger] round_constraint(self.vec_size as int, views_of(vars@), r, j),
            ext_view(res@[7 * (self.vec_size as int + 1)]) == esub(
                views_of(vars@)[idx_round_wire(
                    self.vec_size as int,
                    self.vec_size as int,
                    ROUND_ALREADY_INSERTED as int,
                )],
                embed(1),
            ),
    {
        let vs = self.vec_size;
        let ghost vsi = vs as int;
        let ghost vviews = views_of(vars@);
        let kv = vars[0];
        let e = vars[1];
        let one = ext_from_base(1);
        let mut res: Vec<Ext> = Vec::new();
        let mut r: usize = 0;
        while r <= vs
            invariant
                gate_wf(*self),
                vs == self.vec_size,
                vsi == vs as int,
                vviews == views_of(vars@),
                vars@.len() == gate_num_wires(vsi),
                forall|i: int| 0 <= i < vars@.len() ==> ext_wf(#[trigger] vars@[i]),
                kv == vars@[idx_insertion_index()],
                e == vars@[idx_element_to_insert()],
                ext_wf(one),
                ext_view(one) == embed(1),
                r <= vs + 1,
                res@.len() == 7 * r,
                forall|i: int| 0 <= i < res@.len() ==> ext_wf(#[trigger] res@[i]),
                forall|r2: int, j: int| 0 <= r2 < r as int && 0 <= j < 7
                    ==> ext_view(res@[7 * r2 + j])
                        == #[trigger] round_constraint(vsi, vviews, r2, j),
            decreases vs + 1 - r,
        {
            let base_r = 2 * vs + 3 + 6 * r;
            proof {
                assert(base_r as int == idx_round_wire(vsi, r as int, 0));
                assert(6 * r <= 6 * vs) by (nonlinear_arith)
                    requires r <= vs;
                assert(base_r + 5 < vars@.len());
                assert(vs + 2 + r < vars@.len());
            }
            let ih = vars[base_r + ROUND_INSERT_HERE];
            let d = vars[base_r + ROUND_EQUALITY_DUMMY];
            let ni = vars[base_r + ROUND_NEW_ITEM];
            let npo = vars[base_r + ROUND_NEW_ITEM_PLUS_OLD];
            let ai = vars[base_r + ROUND_ALREADY_INSERTED];
            let nai = vars[base_r + ROUND_NOT_ALREADY_INSERTED];
            let out = vars[vs + 2 + r];
            proof {
                assert(r < FIELD_ORDER);
            }
            let r_ext = ext_from_base(r as u64);
            let diff = ext_sub(r_ext, kv);
            let c0 = ext_sub(ext_mul(d, diff), ext_sub(one, ih));
            let c1 = ext_mul(ih, diff);
            let c2 = ext_sub(ni, ext_mul(ih, e));
            let c3 = if r == 0 {
                ext_sub(npo, ni)
            } else {
                let ai_prev = vars[base_r - 6 + ROUND_ALREADY_INSERTED];
                ext_sub(npo, ext_add(ni, ext_mul(ai_prev, vars[r + 1])))
            };
            let c4 = if r == 0 {
                ext_sub(ai, ih)
            } else {
                let ai_prev = vars[base_r - 6 + ROUND_ALREADY_INSERTED];
                ext_sub(ai, ext_add(ai_prev, ih))
            };
            let c5 = ext_sub(nai, ext_sub(one, ai));
            let c6 = if r < vs {
                ext_sub(out, ext_add(npo, ext_mul(nai, vars[r + 2])))
            } else {
                ext_sub(out, npo)
            };
            res.push(c0);
            res.push(c1);
            res.push(c2);
            res.push(c3);
            res.push(c4);
            res.push(c5);
            res.push(c6);
            proof {
                let ri = r as int;
                assert(views_of(vars@)[idx_round_wire(vsi, ri, 0)] == ext_view(ih));
                assert(views_of(vars@)[idx_round_wire(vsi, ri, 1)] == ext_view(d));
                assert(views_of(vars@)[idx_round_wire(vsi, ri, 2)] == ext_view(ni));
                assert(views_of(vars@)[idx_round_wire(vsi, ri, 3)] == ext_view(npo));
                assert(views_of(vars@)[idx_round_wire(vsi, ri, 4)] == ext_view(ai));
                assert(views_of(vars@)[idx_round_wire(vsi, ri, 5)] == ext_view(nai));
                assert(views_of(vars@)[idx_output_list_item(vsi, ri)] == ext_view(out));
                assert(views_of(vars@)[idx_insertion_index()] == ext_view(kv));
                assert(views_of(vars@)[idx_element_to_insert()] == ext_view(e));
                if ri > 0 {
                    assert(views_of(vars@)[idx_round_wire(vsi, ri - 1, 4)]
                        == ext_view(vars@[2 * vsi + 3 + 6 * ri - 6 + 4]));
                    assert(views_of(vars@)[idx_list_item(ri - 1)] == ext_view(vars@[ri + 1]));
                }
                if ri < vsi {
                    assert(views_of(vars@)[idx_list_item(ri)] == ext_view(vars@[ri + 2]));
                }
                assert forall|j: int| 0 <= j < 7
                    implies ext_view(res@[7 * ri + j]) == #[trigger] round_constraint(vsi, vviews, ri, j) by {
                    assert(res@[7 * ri + 0] == c0);
                    assert(res@[7 * ri + 1] == c1);
                    assert(res@[7 * ri + 2] == c2);
                    assert(res@[7 * ri + 3] == c3);
                    assert(res@[7 * ri + 4] == c4);
                    assert(res@[7 * ri + 5] == c5);
                    assert(res@[7 * ri + 6] == c6);
                }
                assert forall|r2: int, j: int| 0 <= r2 < r as int + 1 && 0 <= j < 7
                    implies ext_view(res@[7 * r2 + j])
                        == #[trigger] round_constraint(vsi, vviews, r2, j) by {
                    if r2 < r as int {
                        assert(res@[7 * r2 + j] == res@.subrange(0, 7 * r as int)[7 * r2 + j]);
                    }
                }
            }
            r = r + 1;
        }
        // One closing constraint: the accumulator must have fired, so an
        // insertion index outside the list is rejected by the row itself.
        proof {
            assert(6 * vs <= 6 * vs) by (nonlinear_arith);
            assert(idx_round_wire(vsi, vsi, ROUND_ALREADY_INSERTED as int) < gate_num_wires(vsi))
                by (nonlinear_arith);
            assert(2 * vs + 3 + 6 * vs + 4 < vars@.len());
        }
        let ai_last = vars[2 * vs + 3 + 6 * vs + ROUND_ALREADY_INSERTED];
        let c_final = ext_sub(ai_last, one);
        let ghost res_pre = res@;
        res.push(c_final);
        proof {
            assert(views_of(vars@)[idx_round_wire(vsi, vsi, ROUND_ALREADY_INSERTED as int)]
                == ext_view(ai_last));
            assert(res@[7 * (vsi + 1)] == c_final);
            assert forall|r2: int, j2: int| 0 <= r2 <= vsi && 0 <= j2 < 7
                implies ext_view(res@[7 * r2 + j2])
                    == #[trigger] round_constraint(vsi, vviews, r2, j2) by {
                assert(0 <= 7 * r2 + j2 < 7 * (vsi + 1)) by (nonlinear_arith)
                    requires 0 <= r2 <= vsi, 0 <= j2 < 7;
                assert(res@[7 * r2 + j2] == res_pre[7 * r2 + j2]);
            }
        }
        res
    }
}

/// Write the six intermediate wires and the output wire of one round, each
/// exactly once.
fn write_round_wires(
    w: &mut Witness,
    t0: Target,
    v0: u64,
    t1: Target,
    v1: u64,
    t2: Target,
    v2: u64,
    t3: Target,
    v3: u64,
    t4: Target,
    v4: u64,
    t5: Target,
    v5: u64,
    t6: Target,
    v6: u64,
) -> (res: Result<(), CircuitError>)
    requires
        wit_wf(old(w)@),
    ensures
        wit_wf(final(w)@),
        wit_extends(final(w)@, old(w)@),
        forall|i: int| 0 <= i < final(w)@.len() && final(w)@[i] != old(w)@[i]
            ==> i == t0.index || i == t1.index || i == t2.index || i == t3.index
                || i == t4.index || i == t5.index || i == t6.index,
        res is Ok ==> {
            &&& tset(final(w)@, t0) && tv(final(w)@, t0) == v0 as int
            &&& tset(final(w)@, t1) && tv(final(w)@, t1) == v1 as int
            &&& tset(final(w)@, t2) && tv(final(w)@, t2) == v2 as int
            &&& tset(final(w)@, t3) && tv(final(w)@, t3) == v3 as int
            &&& tset(final(w)@, t4) && tv(final(w)@, t4) == v4 as int
            &&& tset(final(w)@, t5) && tv(final(w)@, t5) == v5 as int
            &&& tset(final(w)@, t6) && tv(final(w)@, t6) == v6 as int
        },
        ({
            &&& !tset(old(w)@, t0) && !tset(old(w)@, t1) && !tset(old(w)@, t2)
            &&& !tset(old(w)@, t3) && !tset(old(w)@, t4) && !tset(old(w)@, t5)
            &&& !tset(old(w)@, t6)
            &&& t0.index < old(w)@.len() && t1.index < old(w)@.len() && t2.index < old(w)@.len()
            &&& t3.index < old(w)@.len() && t4.index < old(w)@.len() && t5.index < old(w)@.len()
            &&& t6.index < old(w)@.len()
            &&& t0.index != t1.index && t0.index != t2.index && t0.index != t3.index
            &&& t0.index != t4.index && t0.index != t5.index && t0.index != t6.index
            &&& t1.index != t2.index && t1.index != t3.index && t1.index != t4.index
            &&& t1.index != t5.index && t1.index != t6.index
            &&& t2.index != t3.index && t2.index != t4.index && t2.index != t5.index
            &&& t2.index != t6.index
            &&& t3.index != t4.index && t3.index != t5.index && t3.index != t6.index
            &&& t4.index != t5.index && t4.index != t6.index
            &&& t5.index != t6.index
            &&& is_felt(v0) && is_felt(v1) && is_felt(v2) && is_felt(v3) && is_felt(v4)
            &&& is_felt(v5) && is_felt(v6)
        }) ==> res is Ok,
{
    let ghost g1 = w@;
    match w.try_set(t0, v0) {
        Ok(()) => {},
        Err(er) => {
            return Err(er);
        },
    }
    let ghost g2 = w@;
    match w.try_set(t1, v1) {
        Ok(()) => {},
        Err(er) => {
            return Err(er);
        },
    }
    let ghost g3 = w@;
    match w.try_set(t2, v2) {
        Ok(()) => {},
        Err(er) => {
            proof { lemma_extends_trans(w@, g3, g1); }
            return Err(er);
        },
    }
    let ghost g4 = w@;
    match w.try_set(t3, v3) {
        Ok(()) => {},
        Err(er) => {
            proof {
                lemma_extends_trans(g4, g3, g1);
                lemma_extends_trans(w@, g4, g1);
            }
            return Err(er);
        },
    }
    let ghost g5 = w@;
    match w.try_set(t4, v4) {
        Ok(()) => {},
        Err(er) => {
            proof {
                lemma_extends_trans(g4, g3, g1);
                lemma_extends_trans(g5, g4, g1);
                lemma_extends_trans(w@, g5, g1);
            }
            return Err(er);
        },
    }
    let ghost g6 = w@;
    match w.try_set(t5, v5) {
        Ok(()) => {},
        Err(er) => {
            proof {
                lemma_extends_trans(g4, g3, g1);
                lemma_extends_trans(g5, g4, g1);
                lemma_extends_trans(g6, g5, g1);
                lemma_extends_trans(w@, g6, g1);
            }
            return Err(er);
        },
    }
    let ghost g7 = w@;
    match w.try_set(t6, v6) {
        Ok(()) => {},
        Err(er) => {
            proof {
                lemma_extends_trans(g4, g3, g1);
                lemma_extends_trans(g5, g4, g1);
                lemma_extends_trans(g6, g5, g1);
                lemma_extends_trans(g7, g6, g1);
                lemma_extends_trans(w@, g7, g1);
            }
            return Err(er);
        },
    }
    proof {
        // extends(w@, g_k) for every snapshot, by chaining one step at a time
        lemma_extends_trans(w@, g7, g6);
        lemma_extends_trans(w@, g6, g5);
        lemma_extends_trans(w@, g5, g4);
        lemma_extends_trans(w@, g4, g3);
        lemma_extends_trans(w@, g3, g2);
        lemma_extends_trans(w@, g2, g1);
        // each written wire keeps its value through the later writes
        lemma_extends_preserves(w@, g2, t0);
        lemma_extends_preserves(w@, g3, t1);
        lemma_extends_preserves(w@, g4, t2);
        lemma_extends_preserves(w@, g5, t3);
        lemma_extends_preserves(w@, g6, t4);
        lemma_extends_preserves(w@, g7, t5);
    }
    Ok(())
}

/// Witness generator for one insertion-gate row at wire offset `base`: it
/// reads the index, the element and the input list, recomputes every
/// intermediate and output wire by this gate's own rules, and writes each
/// exactly once. On success the populated row satisfies every constraint of
/// this gate, and the output rows hold the input list with the element
/// inserted at the index. An index above `vec_size` is a fatal error.
#[verifier::rlimit(100)]
#[verifier::spinoff_prover]
pub fn run_insertion_generator(gate: &InsertionGate, base: usize, w: &mut Witness) -> (res: Result<
    (),
    CircuitError,
>)
    requires
        gate_wf(*gate),
        wit_wf(old(w)@),
    ensures
        wit_wf(final(w)@),
        wit_extends(final(w)@, old(w)@),
        res is Ok ==> insertion_row_holds(gate.vec_size as int, base as int, final(w)@),
        res is Ok ==> tv(final(w)@, wire(base as int, idx_insertion_index())) <= gate.vec_size as int
            && forall|i: int| 0 <= i <= gate.vec_size as int
                ==> tv(final(w)@, #[trigger] wire(base as int, idx_output_list_item(gate.vec_size as int, i)))
                    == inserted_value(final(w)@, base as int, gate.vec_size as int, i),
        forall|i: int| 0 <= i < final(w)@.len() && final(w)@[i] != old(w)@[i]
            ==> base as int + gate.vec_size as int + 2 <= i < base as int + gate_num_wires(
                gate.vec_size as int,
            ),
        insertion_row_ready(gate.vec_size as int, base as int, old(w)@) && gate.vec_size
            <= SMALL_INVERSE_BOUND as usize ==> res is Ok,
{
    let vs = gate.vec_size;
    let ghost vsi = vs as int;
    let ghost b = base as int;
    if base >= w.values.len() {
        proof {
            if insertion_row_ready(vsi, b, w@) {
                assert(gate_num_wires(vsi) >= 9);
                assert(false);
            }
        }
        return Err(CircuitError::TargetOutOfBounds);
    }
    if 8 * vs + 9 > w.values.len() - base {
        proof {
            if insertion_row_ready(vsi, b, w@) {
                assert(false);
            }
        }
        return Err(CircuitError::TargetOutOfBounds);
    }
    proof {
        assert(base + 8 * vs + 9 <= w@.len());
        assert(w@.len() <= usize::MAX);
    }
    let k = match w.try_get(Target { index: base }) {
        Ok(v) => v,
        Err(er) => {
            proof {
                if insertion_row_ready(vsi, b, w@) {
                    assert(tset(w@, wire(b, 0)));
                    assert(wire(b, 0) == Target { index: base });
                    assert(false);
                }
            }
            return Err(er);
        },
    };
    proof {
        lemma_tv_felt(w@, wire(b, idx_insertion_index()));
    }
    if k > vs as u64 {
        proof {
            if insertion_row_ready(vsi, b, w@) {
                assert(wire(b, 0) == Target { index: base });
                assert(false);
            }
        }
        return Err(CircuitError::IndexOutOfRange);
    }
    let e = match w.try_get(Target { index: base + 1 }) {
        Ok(v) => v,
        Err(er) => {
            proof {
                if insertion_row_ready(vsi, b, w@) {
                    assert(tset(w@, wire(b, 1)));
                    assert(wire(b, 1) == Target { index: (base + 1) as usize });
                    assert(false);
                }
            }
            return Err(er);
        },
    };
    proof {
        lemma_tv_felt(w@, wire(b, idx_element_to_insert()));
    }
    let mut l: Vec<u64> = Vec::new();
    let mut i: usize = 0;
    while i < vs
        invariant
            vs == gate.vec_size,
            vsi == vs as int,
            b == base as int,
            i <= vs,
            base + 8 * vs + 9 <= usize::MAX,
            w@ == old(w)@,
            wit_wf(w@),
            base + 8 * vs + 9 <= w@.len(),
            l@.len() == i,
            forall|i2: int| 0 <= i2 < i as int ==> is_felt(#[trigger] l@[i2]),
            forall|i2: int| 0 <= i2 < i as int
                ==> tset(w@, #[trigger] wire(b, idx_list_item(i2)))
                    && tv(w@, wire(b, idx_list_item(i2))) == l@[i2] as int,
        decreases vs - i,
    {
        let t = Target { index: base + 2 + i };
        let v = match w.try_get(t) {
            Ok(v) => v,
            Err(er) => {
                proof {
                    if insertion_row_ready(vsi, b, w@) {
                        assert(tset(w@, wire(b, idx_list_item(i as int))));
                        assert(wire(b, idx_list_item(i as int)) == t);
                        assert(false);
                    }
                }
                return Err(er);
            },
        };
        proof {
            assert(t == wire(b, idx_list_item(i as int)));
            lemma_tv_felt(w@, t);
        }
        l.push(v);
        i = i + 1;
    }
    let ghost worig = w@;
    let mut prev_ai: u64 = 0;
    let mut r: usize = 0;
    while r <= vs
        invariant
            gate_wf(*gate),
            vs == gate.vec_size,
            vsi == vs as int,
            b == base as int,
            base + 8 * vs + 9 <= w@.len(),
            base + 8 * vs + 9 <= usize::MAX,
            wit_wf(w@),
            worig == old(w)@,
            wit_extends(w@, old(w)@),
            r <= vs + 1,
            k <= vs as u64,
            is_felt(k),
            is_felt(e),
            tv(old(w)@, wire(b, idx_insertion_index())) == k as int,
            tv(old(w)@, wire(b, idx_element_to_insert())) == e as int,
            tset(w@, wire(b, idx_insertion_index())),
            tset(w@, wire(b, idx_element_to_insert())),
            tv(w@, wire(b, idx_insertion_index())) == k as int,
            tv(w@, wire(b, idx_element_to_insert())) == e as int,
            l@.len() == vs,
            forall|i2: int| 0 <= i2 < vsi ==> is_felt(#[trigger] l@[i2]),
            forall|i2: int| 0 <= i2 < vsi
                ==> tset(w@, #[trigger] wire(b, idx_list_item(i2)))
                    && tv(w@, wire(b, idx_list_item(i2))) == l@[i2] as int
                    && tv(old(w)@, wire(b, idx_list_item(i2))) == l@[i2] as int,
            forall|r2: int, j2: int| 0 <= r2 < r as int && 0 <= j2 < 6
                ==> tset(w@, #[trigger] wire(b, idx_round_wire(vsi, r2, j2))),
            forall|r2: int| 0 <= r2 < r as int
                ==> tset(w@, #[trigger] wire(b, idx_output_list_item(vsi, r2))),
            is_felt(prev_ai),
            prev_ai as int == if r as int == 0 {
                0int
            } else if r as int - 1 >= k as int {
                1int
            } else {
                0int
            },
            r > 0 ==> tv(
                w@,
                wire(b, idx_round_wire(vsi, r as int - 1, ROUND_ALREADY_INSERTED as int)),
            ) == prev_ai as int,
            forall|r2: int, j2: int| 0 <= r2 < r as int && 0 <= j2 < 7
                ==> #[trigger] round_constraint(vsi, row_vars(w@, b, vsi), r2, j2)
                    == ext_zero_view(),
            forall|r2: int| 0 <= r2 < r as int
                ==> tv(w@, #[trigger] wire(b, idx_output_list_item(vsi, r2)))
                    == inserted_value(old(w)@, b, vsi, r2),
            w@.len() == worig.len(),
            forall|i2: int| 0 <= i2 < w@.len() && w@[i2] != worig[i2]
                ==> (b + vsi + 2 <= i2 < b + vsi + 2 + r as int)
                    || (b + 2 * vsi + 3 <= i2 < b + 2 * vsi + 3 + 6 * (r as int)),
        decreases vs + 1 - r,
    {
        let ghost ws0 = w@;
        let ghost ri = r as int;
        proof {
            assert(6 * r <= 6 * vs) by (nonlinear_arith)
                requires r <= vs;
        }
        let diff = f_sub(r as u64, k);
        proof {
            lemma_fsub_zero_iff(ri, k as int);
        }
        let ih: u64 = if r as u64 == k {
            1
        } else {
            0
        };
        let mut d: u64 = 0;
        if ih == 0 {
            // The difference is non-zero. Small differences have precomputed
            // inverses, so small gates never fail here; larger ones fall back
            // to exponentiation with a checked result.
            if r as u64 > k && r as u64 - k <= SMALL_INVERSE_BOUND {
                let m = r as u64 - k;
                d = small_inverse(m);
                proof {
                    vstd::arithmetic::div_mod::lemma_mod_add_multiples_vanish(
                        ri - k as int,
                        fp(),
                    );
                    vstd::arithmetic::div_mod::lemma_small_mod((ri - k as int) as nat, fp() as nat);
                    assert(diff as int == m as int);
                    assert(fmul(diff as int, d as int) == 1);
                }
            } else if (r as u64) < k && k - r as u64 <= SMALL_INVERSE_BOUND {
                let m = k - r as u64;
                let dm = small_inverse(m);
                d = FIELD_ORDER - dm;
                proof {
                    vstd::arithmetic::div_mod::lemma_small_mod(
                        (ri + fp() - k as int) as nat,
                        fp() as nat,
                    );
                    assert(diff as int == fp() - m as int);
                    lemma_neg_inverse(m as int, dm as int);
                    assert(fmul(diff as int, d as int) == 1);
                }
            } else {
                match f_try_inverse(diff) {
                    Some(x) => {
                        d = x;
                    },
                    None => {
                        proof {
                            if insertion_row_ready(vsi, b, worig) && vs <= SMALL_INVERSE_BOUND
                                as usize {
                                assert(false);
                            }
                        }
                        return Err(CircuitError::UnsatisfiedConstraint);
                    },
                }
            }
        }
        let ni = f_mul(ih, e);
        let ai = f_add(prev_ai, ih);
        let npo = if r == 0 {
            ni
        } else {
            f_add(ni, f_mul(prev_ai, l[r - 1]))
        };
        let nai = f_sub(1, ai);
        let out = if r < vs {
            f_add(npo, f_mul(nai, l[r]))
        } else {
            npo
        };
        // Value-level facts: the indicators really are indicators, and the
        // output row holds the inserted list's value.
        proof {
            vstd::arithmetic::div_mod::lemma_small_mod((prev_ai + ih) as nat, fp() as nat);
            assert(ai as int == prev_ai as int + ih as int);
            if ih == 1 {
                assert(1int * (e as int) == e as int);
                vstd::arithmetic::div_mod::lemma_small_mod(e as nat, fp() as nat);
                assert(ni as int == e as int);
            } else {
                lemma_fmul_zero(e as int);
                assert(ni as int == 0);
            }
            if r > 0 && prev_ai == 1 {
                assert(1int * (l@[ri - 1] as int) == l@[ri - 1] as int);
                vstd::arithmetic::div_mod::lemma_small_mod(l@[ri - 1] as nat, fp() as nat);
                crate::field::lemma_fadd_zero(l@[ri - 1] as int);
                assert(npo as int == l@[ri - 1] as int);
            }
            if r > 0 && prev_ai == 0 {
                lemma_fmul_zero(l@[ri - 1] as int);
                crate::field::lemma_fadd_zero(ni as int);
                assert(npo as int == ni as int);
            }
            if ai == 1 {
                lemma_fsub_zero_iff(1, 1);
                assert(nai as int == 0);
            } else {
                lemma_fsub_zero_right(1);
                assert(nai as int == 1);
            }
            if r < vs {
                if nai == 0 {
                    lemma_fmul_zero(l@[ri] as int);
                    crate::field::lemma_fadd_zero(npo as int);
                    assert(out as int == npo as int);
                } else {
                    assert(1int * (l@[ri] as int) == l@[ri] as int);
                    vstd::arithmetic::div_mod::lemma_small_mod(l@[ri] as nat, fp() as nat);
                    crate::field::lemma_fadd_zero(l@[ri] as int);
                    assert(out as int == l@[ri] as int);
                }
            }
            assert(out as int == inserted_value(old(w)@, b, vsi, ri));
        }
        let base_r = base + 2 * vs + 3 + 6 * r;
        let t_ih = Target { index: base_r };
        let t_d = Target { index: base_r + 1 };
        let t_ni = Target { index: base_r + 2 };
        let t_npo = Target { index: base_r + 3 };
        let t_ai = Target { index: base_r + 4 };
        let t_nai = Target { index: base_r + 5 };
        let t_out = Target { index: base + vs + 2 + r };
        proof {
            assert(t_ih == wire(b, idx_round_wire(vsi, ri, 0)));
            assert(t_d == wire(b, idx_round_wire(vsi, ri, 1)));
            assert(t_ni == wire(b, idx_round_wire(vsi, ri, 2)));
            assert(t_npo == wire(b, idx_round_wire(vsi, ri, 3)));
            assert(t_ai == wire(b, idx_round_wire(vsi, ri, 4)));
            assert(t_nai == wire(b, idx_round_wire(vsi, ri, 5)));
            assert(t_out == wire(b, idx_output_list_item(vsi, ri)));
        }
        match write_round_wires(w, t_ih, ih, t_d, d, t_ni, ni, t_npo, npo, t_ai, ai, t_nai, nai, t_out, out) {
            Ok(()) => {},
            Err(er) => {
                proof {
                    if insertion_row_ready(vsi, b, worig) && vs <= SMALL_INVERSE_BOUND as usize {
                        // None of this round's wires was touched before, so
                        // every write must have gone through.
                        assert(ws0[t_ih.index as int] == worig[t_ih.index as int]);
                        assert(ws0[t_d.index as int] == worig[t_d.index as int]);
                        assert(ws0[t_ni.index as int] == worig[t_ni.index as int]);
                        assert(ws0[t_npo.index as int] == worig[t_npo.index as int]);
                        assert(ws0[t_ai.index as int] == worig[t_ai.index as int]);
                        assert(ws0[t_nai.index as int] == worig[t_nai.index as int]);
                        assert(ws0[t_out.index as int] == worig[t_out.index as int]);
                        assert(!tset(worig, wire(b, idx_round_wire(vsi, ri, 0))));
                        assert(!tset(worig, wire(b, idx_round_wire(vsi, ri, 1))));
                        assert(!tset(worig, wire(b, idx_round_wire(vsi, ri, 2))));
                        assert(!tset(worig, wire(b, idx_round_wire(vsi, ri, 3))));
                        assert(!tset(worig, wire(b, idx_round_wire(vsi, ri, 4))));
                        assert(!tset(worig, wire(b, idx_round_wire(vsi, ri, 5))));
                        assert(!tset(worig, wire(b, idx_output_list_item(vsi, ri))));
                        assert(!tset(ws0, t_ih) && !tset(ws0, t_d) && !tset(ws0, t_ni)
                            && !tset(ws0, t_npo) && !tset(ws0, t_ai) && !tset(ws0, t_nai)
                            && !tset(ws0, t_out));
                        assert(false);
                    }
                }
                return Err(er);
            },
        }
        proof {
            lemma_extends_trans(w@, ws0, old(w)@);

            let wcur = w@;
            // The seven wires of this round hold the computed values: the
            // writes hit seven distinct, previously unassigned indices.
            assert(tv(wcur, wire(b, idx_round_wire(vsi, ri, 0))) == ih as int);
            assert(tv(wcur, wire(b, idx_round_wire(vsi, ri, 1))) == d as int);
            assert(tv(wcur, wire(b, idx_round_wire(vsi, ri, 2))) == ni as int);
            assert(tv(wcur, wire(b, idx_round_wire(vsi, ri, 3))) == npo as int);
            assert(tv(wcur, wire(b, idx_round_wire(vsi, ri, 4))) == ai as int);
            assert(tv(wcur, wire(b, idx_round_wire(vsi, ri, 5))) == nai as int);
            assert(tv(wcur, wire(b, idx_output_list_item(vsi, ri))) == out as int);
            // Inputs and earlier rounds keep their values.
            lemma_extends_preserves(wcur, ws0, wire(b, idx_insertion_index()));
            lemma_extends_preserves(wcur, ws0, wire(b, idx_element_to_insert()));
            assert forall|i2: int| 0 <= i2 < vsi implies
                tset(wcur, #[trigger] wire(b, idx_list_item(i2)))
                    && tv(wcur, wire(b, idx_list_item(i2))) == l@[i2] as int by {
                lemma_extends_preserves(wcur, ws0, wire(b, idx_list_item(i2)));
            }
            assert forall|r2: int, j2: int| 0 <= r2 < ri && 0 <= j2 < 6 implies
                tset(wcur, #[trigger] wire(b, idx_round_wire(vsi, r2, j2))) by {
                lemma_extends_preserves(wcur, ws0, wire(b, idx_round_wire(vsi, r2, j2)));
            }
            assert forall|r2: int| 0 <= r2 < ri implies
                tset(wcur, #[trigger] wire(b, idx_output_list_item(vsi, r2)))
                    && tv(wcur, wire(b, idx_output_list_item(vsi, r2)))
                        == inserted_value(old(w)@, b, vsi, r2) by {
                lemma_extends_preserves(wcur, ws0, wire(b, idx_output_list_item(vsi, r2)));
            }
            // Constraints of earlier rounds are stable under the extension.
            assert forall|r2: int, j2: int| 0 <= r2 < ri && 0 <= j2 < 7 implies
                #[trigger] round_constraint(vsi, row_vars(wcur, b, vsi), r2, j2)
                    == ext_zero_view() by {
                lemma_round_constraint_stable(vsi, b, ws0, wcur, r2, j2);
            }
            // This round's constraints hold on the values just written.
            let lr1v: int = if ri > 0 { l@[ri - 1] as int } else { 0int };
            let lrv: int = if ri < vsi { l@[ri] as int } else { 0int };
            lemma_round_holds(
                vsi, b, wcur, ri,
                k as int, e as int, lr1v, lrv,
                ih as int, d as int, ni as int, npo as int, ai as int, nai as int, out as int,
                prev_ai as int,
            );
            assert forall|r2: int, j2: int| 0 <= r2 < ri + 1 && 0 <= j2 < 7 implies
                #[trigger] round_constraint(vsi, row_vars(wcur, b, vsi), r2, j2)
                    == ext_zero_view() by {}
        }
        proof {
            assert forall|i2: int| 0 <= i2 < w@.len() && w@[i2] != worig[i2]
                implies (b + vsi + 2 <= i2 < b + vsi + 2 + (ri + 1))
                    || (b + 2 * vsi + 3 <= i2 < b + 2 * vsi + 3 + 6 * (ri + 1)) by {
                if ws0[i2] == worig[i2] {
                    assert(w@[i2] != ws0[i2]);
                }
            }
        }
        prev_ai = ai;
        r = r + 1;
    }
    proof {
        let wcur = w@;
        assert forall|j: int| 0 <= j < gate_num_wires(vsi) implies tset(wcur, #[trigger] wire(b, j)) by {
            if j == idx_insertion_index() {
            } else if j == idx_element_to_insert() {
            } else if j < vsi + 2 {
                assert(j == idx_list_item(j - 2));
                assert(tset(wcur, wire(b, idx_list_item(j - 2))));
            } else if j < 2 * vsi + 3 {
                let i2 = j - (vsi + 2);
                assert(j == idx_output_list_item(vsi, i2));
                assert(tset(wcur, wire(b, idx_output_list_item(vsi, i2))));
            } else {
                let m = j - (2 * vsi + 3);
                let r2 = m / 6;
                let j2 = m % 6;
                vstd::arithmetic::div_mod::lemma_fundamental_div_mod(m, 6);
                vstd::arithmetic::div_mod::lemma_mod_bound(m, 6);
                assert(m < 6 * (vsi + 1));
                vstd::arithmetic::div_mod::lemma_multiply_divide_lt(m, 6, vsi + 1);
                vstd::arithmetic::div_mod::lemma_div_pos_is_pos(m, 6);
                assert(j == idx_round_wire(vsi, r2, j2));
                assert(tset(wcur, wire(b, idx_round_wire(vsi, r2, j2))));
            }
        }
        assert forall|j: int| 0 <= j < gate_num_wires(vsi)
            implies tv(wcur, #[trigger] wire(b, j)) < fp() by {
            lemma_tv_felt(wcur, wire(b, j));
        }
        assert(tv(wcur, wire(b, idx_round_wire(vsi, vsi, ROUND_ALREADY_INSERTED as int)))
            == prev_ai as int);
        assert(prev_ai == 1);
        assert(row_vars(wcur, b, vsi)[idx_round_wire(vsi, vsi, ROUND_ALREADY_INSERTED as int)]
            == embed(1)) by {
            assert(idx_round_wire(vsi, vsi, ROUND_ALREADY_INSERTED as int) < gate_num_wires(vsi));
        }
        lemma_esub_self(embed(1));
        assert forall|i2: int| 0 <= i2 <= vsi implies
            inserted_value(wcur, b, vsi, i2) == inserted_value(worig, b, vsi, i2) by {
            assert(tv(wcur, wire(b, idx_insertion_index())) == k as int);
            if 0 <= i2 - 1 < vsi {
                assert(tv(wcur, wire(b, idx_list_item(i2 - 1))) == l@[i2 - 1] as int);
                assert(tv(worig, wire(b, idx_list_item(i2 - 1))) == l@[i2 - 1] as int);
            }
            if 0 <= i2 < vsi {
                assert(tv(wcur, wire(b, idx_list_item(i2))) == l@[i2] as int);
                assert(tv(worig, wire(b, idx_list_item(i2))) == l@[i2] as int);
            }
        }
    }
    Ok(())
}

/// The decimal digit characters of `n`, most significant first.
pub open spec fn spec_decimal(n: nat) -> Seq<char>
    decreases n,
{
    if n < 10 {
        seq![digit_char(n)]
    } else {
        spec_decimal(n / 10).push(digit_char(n % 10))
    }
}

pub open spec fn digit_char(d: nat) -> char {
    if d == 0 { '0' }
    else if d == 1 { '1' }
    else if d == 2 { '2' }
    else if d == 3 { '3' }
    else if d == 4 { '4' }
    else if d == 5 { '5' }
    else if d == 6 { '6' }
    else if d == 7 { '7' }
    else if d == 8 { '8' }
    else { '9' }
}

/// The identifier text of an insertion row with list length `vs`.
pub open spec fn spec_gate_id(vs: nat) -> Seq<char> {
    "InsertionGate vec_size="@ + spec_decimal(vs) + " ext_degree=2"@
}

/// An owned copy of a literal.
pub fn string_from_literal(s: &str) -> (r: String)
    ensures
        r@ == s@,
{
    <String as vstd::string::StringExecFns>::from_str(s)
}

/// The decimal digits of `n`, as text.
pub fn decimal_string(n: u64) -> (s: String)
    ensures
        s@ == spec_decimal(n as nat),
    decreases n,
{
    let d = n % 10;
    let ds: &str = if d == 0 { "0" }
    else if d == 1 { "1" }
    else if d == 2 { "2" }
    else if d == 3 { "3" }
    else if d == 4 { "4" }
    else if d == 5 { "5" }
    else if d == 6 { "6" }
    else if d == 7 { "7" }
    else if d == 8 { "8" }
    else { "9" };
    proof {
        reveal_strlit("0");
        reveal_strlit("1");
        reveal_strlit("2");
        reveal_strlit("3");
        reveal_strlit("4");
        reveal_strlit("5");
        reveal_strlit("6");
        reveal_strlit("7");
        reveal_strlit("8");
        reveal_strlit("9");
        assert(ds@ =~= seq![digit_char(d as nat)]);
    }
    if n < 10 {
        <String as vstd::string::StringExecFns>::from_str(ds)
    } else {
        let mut s = decimal_string(n / 10);
        <String as vstd::string::StringExecFns>::append(&mut s, ds);
        proof {
            assert(s@ =~= spec_decimal(n as nat));
        }
        s
    }
}

/// A round's constraints read only wires that were already assigned, so they
/// keep their value when the witness is extended.
pub proof fn lemma_round_constraint_stable(
    vs: int,
    base: int,
    w1: Seq<Option<u64>>,
    w2: Seq<Option<u64>>,
    r: int,
    j: int,
)
    requires
        wit_extends(w2, w1),
        0 <= r <= vs,
        0 <= j < 7,
        tset(w1, wire(base, idx_insertion_index())),
        tset(w1, wire(base, idx_element_to_insert())),
        forall|i: int| 0 <= i < vs ==> tset(w1, #[trigger] wire(base, idx_list_item(i))),
        forall|j2: int| 0 <= j2 < 6 ==> tset(w1, #[trigger] wire(base, idx_round_wire(vs, r, j2))),
        r > 0 ==> tset(w1, wire(base, idx_round_wire(vs, r - 1, ROUND_ALREADY_INSERTED as int))),
        tset(w1, wire(base, idx_output_list_item(vs, r))),
    ensures
        round_constraint(vs, row_vars(w2, base, vs), r, j)
            == round_constraint(vs, row_vars(w1, base, vs), r, j),
{
    let v1 = row_vars(w1, base, vs);
    let v2 = row_vars(w2, base, vs);
    lemma_extends_preserves(w2, w1, wire(base, idx_insertion_index()));
    lemma_extends_preserves(w2, w1, wire(base, idx_element_to_insert()));
    assert forall|j2: int| 0 <= j2 < 6 implies
        tv(w2, #[trigger] wire(base, idx_round_wire(vs, r, j2)))
            == tv(w1, wire(base, idx_round_wire(vs, r, j2))) by {
        lemma_extends_preserves(w2, w1, wire(base, idx_round_wire(vs, r, j2)));
    }
    lemma_extends_preserves(w2, w1, wire(base, idx_output_list_item(vs, r)));
    if r > 0 {
        lemma_extends_preserves(w2, w1, wire(base, idx_round_wire(vs, r - 1, ROUND_ALREADY_INSERTED as int)));
        lemma_extends_preserves(w2, w1, wire(base, idx_list_item(r - 1)));
        assert(v2[idx_round_wire(vs, r - 1, ROUND_ALREADY_INSERTED as int)]
            == v1[idx_round_wire(vs, r - 1, ROUND_ALREADY_INSERTED as int)]);
        assert(v2[idx_list_item(r - 1)] == v1[idx_list_item(r - 1)]);
    }
    if r < vs {
        lemma_extends_preserves(w2, w1, wire(base, idx_list_item(r)));
        assert(v2[idx_list_item(r)] == v1[idx_list_item(r)]);
    }
    assert(v2[idx_insertion_index()] == v1[idx_insertion_index()]);
    assert(v2[idx_element_to_insert()] == v1[idx_element_to_insert()]);
    assert(v2[idx_output_list_item(vs, r)] == v1[idx_output_list_item(vs, r)]);
    assert forall|j2: int| 0 <= j2 < 6 implies
        v2[idx_round_wire(vs, r, j2)] == v1[idx_round_wire(vs, r, j2)] by {}
    assert(v2[idx_round_wire(vs, r, 0)] == v1[idx_round_wire(vs, r, 0)]);
    assert(v2[idx_round_wire(vs, r, 1)] == v1[idx_round_wire(vs, r, 1)]);
    assert(v2[idx_round_wire(vs, r, 2)] == v1[idx_round_wire(vs, r, 2)]);
    assert(v2[idx_round_wire(vs, r, 3)] == v1[idx_round_wire(vs, r, 3)]);
    assert(v2[idx_round_wire(vs, r, 4)] == v1[idx_round_wire(vs, r, 4)]);
    assert(v2[idx_round_wire(vs, r, 5)] == v1[idx_round_wire(vs, r, 5)]);
}

/// A satisfied row stays satisfied when the witness is extended: every wire
/// it reads already has its value.
pub proof fn lemma_insertion_row_stable(
    vs: int,
    base: int,
    w1: Seq<Option<u64>>,
    w2: Seq<Option<u64>>,
)
    requires
        wit_extends(w2, w1),
        0 <= vs,
        insertion_row_holds(vs, base, w1),
    ensures
        insertion_row_holds(vs, base, w2),
{
    assert forall|j: int| 0 <= j < gate_num_wires(vs) implies tset(w2, #[trigger] wire(base, j)) by {
        lemma_extends_preserves(w2, w1, wire(base, j));
    }
    assert forall|j: int| 0 <= j < gate_num_wires(vs)
        implies tv(w2, #[trigger] wire(base, j)) < fp() by {
        lemma_extends_preserves(w2, w1, wire(base, j));
    }
    assert(esub(
        row_vars(w2, base, vs)[idx_round_wire(vs, vs, ROUND_ALREADY_INSERTED as int)],
        embed(1),
    ) == ext_zero_view()) by {
        assert(idx_round_wire(vs, vs, ROUND_ALREADY_INSERTED as int) < gate_num_wires(vs))
            by (nonlinear_arith)
            requires vs >= 0;
        lemma_extends_preserves(
            w2,
            w1,
            wire(base, idx_round_wire(vs, vs, ROUND_ALREADY_INSERTED as int)),
        );
    }
    assert forall|r: int, j: int| 0 <= r <= vs && 0 <= j < 7
        implies #[trigger] round_constraint(vs, row_vars(w2, base, vs), r, j) == ext_zero_view() by {
        assert forall|i: int| 0 <= i < vs implies tset(w1, #[trigger] wire(base, idx_list_item(i))) by {
            assert(tset(w1, wire(base, idx_list_item(i))));
        }
        assert forall|j2: int| 0 <= j2 < 6
            implies tset(w1, #[trigger] wire(base, idx_round_wire(vs, r, j2))) by {
            assert(idx_round_wire(vs, r, j2) < gate_num_wires(vs)) by (nonlinear_arith)
                requires 0 <= r <= vs, 0 <= j2 < 6;
            assert(tset(w1, wire(base, idx_round_wire(vs, r, j2))));
        }
        if r > 0 {
            assert(idx_round_wire(vs, r - 1, ROUND_ALREADY_INSERTED as int) < gate_num_wires(vs))
                by (nonlinear_arith)
                requires 0 < r <= vs;
            assert(tset(w1, wire(base, idx_round_wire(vs, r - 1, ROUND_ALREADY_INSERTED as int))));
        }
        assert(tset(w1, wire(base, idx_output_list_item(vs, r))));
        lemma_round_constraint_stable(vs, base, w1, w2, r, j);
    }
}

/// The values the generator computes for one round satisfy all seven of that
/// round's constraints.
pub proof fn lemma_round_holds(
    vs: int,
    base: int,
    w: Seq<Option<u64>>,
    r: int,
    k: int,
    e: int,
    lr1: int,
    lr: int,
    ih: int,
    d: int,
    ni: int,
    npo: int,
    ai: int,
    nai: int,
    out: int,
    prev_ai: int,
)
    requires
        0 <= r <= vs,
        0 <= k < fp(),
        0 <= r < fp(),
        0 <= e < fp(),
        0 <= lr1 < fp(),
        0 <= lr < fp(),
        0 <= ih < fp(),
        0 <= d < fp(),
        0 <= ni < fp(),
        0 <= npo < fp(),
        0 <= ai < fp(),
        0 <= nai < fp(),
        0 <= out < fp(),
        0 <= prev_ai < fp(),
        r == 0 ==> prev_ai == 0,
        ih == if r == k { 1int } else { 0int },
        r != k ==> fmul(fsub(r, k), d) == 1,
        ni == fmul(ih, e),
        ai == fadd(prev_ai, ih),
        npo == if r == 0 { ni } else { fadd(ni, fmul(prev_ai, lr1)) },
        nai == fsub(1, ai),
        out == if r < vs { fadd(npo, fmul(nai, lr)) } else { npo },
        tv(w, wire(base, idx_insertion_index())) == k,
        tv(w, wire(base, idx_element_to_insert())) == e,
        r > 0 ==> tv(w, wire(base, idx_list_item(r - 1))) == lr1,
        r < vs ==> tv(w, wire(base, idx_list_item(r))) == lr,
        tv(w, wire(base, idx_round_wire(vs, r, ROUND_INSERT_HERE as int))) == ih,
        tv(w, wire(base, idx_round_wire(vs, r, ROUND_EQUALITY_DUMMY as int))) == d,
        tv(w, wire(base, idx_round_wire(vs, r, ROUND_NEW_ITEM as int))) == ni,
        tv(w, wire(base, idx_round_wire(vs, r, ROUND_NEW_ITEM_PLUS_OLD as int))) == npo,
        tv(w, wire(base, idx_round_wire(vs, r, ROUND_ALREADY_INSERTED as int))) == ai,
        tv(w, wire(base, idx_round_wire(vs, r, ROUND_NOT_ALREADY_INSERTED as int))) == nai,
        tv(w, wire(base, idx_output_list_item(vs, r))) == out,
        r > 0 ==> tv(w, wire(base, idx_round_wire(vs, r - 1, ROUND_ALREADY_INSERTED as int))) == prev_ai,
    ensures
        forall|j: int| 0 <= j < 7
            ==> #[trigger] round_constraint(vs, row_vars(w, base, vs), r, j) == ext_zero_view(),
{
    let v = row_vars(w, base, vs);
    assert(v[idx_insertion_index()] == embed(k));
    assert(v[idx_element_to_insert()] == embed(e));
    assert(v[idx_round_wire(vs, r, 0)] == embed(ih));
    assert(v[idx_round_wire(vs, r, 1)] == embed(d));
    assert(v[idx_round_wire(vs, r, 2)] == embed(ni));
    assert(v[idx_round_wire(vs, r, 3)] == embed(npo));
    assert(v[idx_round_wire(vs, r, 4)] == embed(ai));
    assert(v[idx_round_wire(vs, r, 5)] == embed(nai));
    assert(v[idx_output_list_item(vs, r)] == embed(out));
    if r > 0 {
        assert(v[idx_round_wire(vs, r - 1, 4)] == embed(prev_ai));
        assert(v[idx_list_item(r - 1)] == embed(lr1));
    }
    if r < vs {
        assert(v[idx_list_item(r)] == embed(lr));
    }
    let df = fsub(r, k);
    vstd::arithmetic::div_mod::lemma_mod_bound(r + fp() - k, fp());
    lemma_embed_sub(r, k);
    assert(esub(embed(r), v[idx_insertion_index()]) == embed(df));
    lemma_fsub_zero_iff(r, k);

    // Constraint 0: equality_dummy * diff - (1 - insert_here).
    lemma_embed_mul(d, df);
    lemma_embed_sub(1, ih);
    if r == k {
        lemma_fmul_zero(d);
        lemma_fsub_zero_iff(1, 1);
        lemma_esub_self(embed(0));
        assert(round_constraint(vs, v, r, 0) == ext_zero_view());
    } else {
        lemma_fmul_comm(df, d);
        lemma_fsub_zero_right(1);
        lemma_esub_self(embed(1));
        assert(round_constraint(vs, v, r, 0) == ext_zero_view());
    }

    // Constraint 1: insert_here * diff.
    lemma_embed_mul(ih, df);
    if r == k {
        lemma_fmul_zero(1);
    } else {
        lemma_fmul_zero(df);
    }
    assert(round_constraint(vs, v, r, 1) == ext_zero_view());

    // Constraint 2: new_item - insert_here * element.
    lemma_embed_mul(ih, e);
    lemma_esub_self(embed(ni));
    assert(round_constraint(vs, v, r, 2) == ext_zero_view());

    // Constraint 3: new_item_plus_old_item - (new_item + already_inserted_prev * item).
    if r == 0 {
        lemma_esub_self(embed(npo));
        assert(round_constraint(vs, v, r, 3) == ext_zero_view());
    } else {
        lemma_embed_mul(prev_ai, lr1);
        vstd::arithmetic::div_mod::lemma_mod_bound(prev_ai * lr1, fp());
        assert(prev_ai * lr1 >= 0) by (nonlinear_arith)
            requires prev_ai >= 0, lr1 >= 0;
        lemma_embed_add(ni, fmul(prev_ai, lr1));
        lemma_esub_self(embed(npo));
        assert(round_constraint(vs, v, r, 3) == ext_zero_view());
    }

    // Constraint 4: already_inserted - (already_inserted_prev + insert_here).
    if r == 0 {
        lemma_esub_self(embed(ai));
        assert(fadd(0, ih) == ih) by {
            crate::field::lemma_fadd_zero(ih);
        }
        assert(round_constraint(vs, v, r, 4) == ext_zero_view());
    } else {
        lemma_embed_add(prev_ai, ih);
        lemma_esub_self(embed(ai));
        assert(round_constraint(vs, v, r, 4) == ext_zero_view());
    }

    // Constraint 5: not_already_inserted - (1 - already_inserted).
    lemma_embed_sub(1, ai);
    lemma_esub_self(embed(nai));
    assert(round_constraint(vs, v, r, 5) == ext_zero_view());

    // Constraint 6: output - (new_item_plus_old_item + not_already_inserted * item).
    if r < vs {
        lemma_embed_mul(nai, lr);
        vstd::arithmetic::div_mod::lemma_mod_bound(nai * lr, fp());
        assert(nai * lr >= 0) by (nonlinear_arith)
            requires nai >= 0, lr >= 0;
        lemma_embed_add(npo, fmul(nai, lr));
        lemma_esub_self(embed(out));
        assert(round_constraint(vs, v, r, 6) == ext_zero_view());
    } else {
        lemma_esub_self(embed(out));
        assert(round_constraint(vs, v, r, 6) == ext_zero_view());
    }
}

} // verus!
