//! The degree-2 field extension used for constraint evaluation: pairs
//! `c0 + c1 * x` with `x * x = EXT_W`. Gate constraints are evaluated over
//! this extension so they can later be checked against extension-field
//! challenges; base-field witness values enter through the embedding.

use vstd::prelude::*;
use crate::field::{fadd, fsub, fmul, fp, is_felt, f_add, f_sub, f_mul};

verus! {

/// The non-residue defining the extension: `x * x = EXT_W`.
pub const EXT_W: u64 = 7;

/// Number of base-field coordinates of one extension element; every logical
/// gate value occupies this many consecutive wires.
pub const EXT_DEGREE: usize = 2;

/// An element of the quadratic extension, coordinates in the base field.
#[derive(Clone, Copy, Debug, PartialEq, Eq, Structural)]
pub struct Ext {
    pub c0: u64,
    pub c1: u64,
}

pub open spec fn ext_wf(e: Ext) -> bool {
    is_felt(e.c0) && is_felt(e.c1)
}

/// Mathematical view of an extension element: its coordinate pair.
pub open spec fn ext_view(e: Ext) -> (int, int) {
    (e.c0 as int, e.c1 as int)
}

pub open spec fn eadd(a: (int, int), b: (int, int)) -> (int, int) {
    (fadd(a.0, b.0), fadd(a.1, b.1))
}

pub open spec fn esub(a: (int, int), b: (int, int)) -> (int, int) {
    (fsub(a.0, b.0), fsub(a.1, b.1))
}

pub open spec fn emul(a: (int, int), b: (int, int)) -> (int, int) {
    (
        fadd(fmul(a.0, b.0), fmul(EXT_W as int, fmul(a.1, b.1))),
        fadd(fmul(a.0, b.1), fmul(a.1, b.0)),
    )
}

/// Embedding of a canonical base-field element into the extension.
pub open spec fn embed(x: int) -> (int, int) {
    (x, 0)
}

pub open spec fn ext_zero_view() -> (int, int) {
    (0, 0)
}

pub fn ext_from_base(x: u64) -> (r: Ext)
    requires
        is_felt(x),
    ensures
        ext_wf(r),
        ext_view(r) == embed(x as int),
{
    Ext { c0: x, c1: 0 }
}

pub fn ext_zero() -> (r: Ext)
    ensures
        ext_wf(r),
        ext_view(r) == ext_zero_view(),
{
    Ext { c0: 0, c1: 0 }
}

pub fn ext_add(a: Ext, b: Ext) -> (r: Ext)
    requires
        ext_wf(a),
        ext_wf(b),
    ensures
        ext_wf(r),
        ext_view(r) == eadd(ext_view(a), ext_view(b)),
{
    Ext { c0: f_add(a.c0, b.c0), c1: f_add(a.c1, b.c1) }
}

pub fn ext_sub(a: Ext, b: Ext) -> (r: Ext)
    requires
        ext_wf(a),
        ext_wf(b),
    ensures
        ext_wf(r),
        ext_view(r) == esub(ext_view(a), ext_view(b)),
{
    Ext { c0: f_sub(a.c0, b.c0), c1: f_sub(a.c1, b.c1) }
}

pub fn ext_mul(a: Ext, b: Ext) -> (r: Ext)
    requires
        ext_wf(a),
        ext_wf(b),
    ensures
        ext_wf(r),
        ext_view(r) == emul(ext_view(a), ext_view(b)),
{
    Ext {
        c0: f_add(f_mul(a.c0, b.c0), f_mul(EXT_W, f_mul(a.c1, b.c1))),
        c1: f_add(f_mul(a.c0, b.c1), f_mul(a.c1, b.c0)),
    }
}

/// The embedding is additive: adding embedded elements embeds the field sum.
pub proof fn lemma_embed_add(a: int, b: int)
    requires
        0 <= a < fp(),
        0 <= b < fp(),
    ensures
        eadd(embed(a), embed(b)) == embed(fadd(a, b)),
{
    assert(fadd(0, 0) == 0) by {
        vstd::arithmetic::div_mod::lemma_small_mod(0nat, fp() as nat);
    }
}

/// The embedding respects subtraction.
pub proof fn lemma_embed_sub(a: int, b: int)
    requires
        0 <= a < fp(),
        0 <= b < fp(),
    ensures
        esub(embed(a), embed(b)) == embed(fsub(a, b)),
{
    assert(fsub(0, 0) == 0) by {
        vstd::arithmetic::div_mod::lemma_mod_self_0(fp());
    }
}

/// The embedding is multiplicative: multiplying embedded elements embeds the
/// field product.
pub proof fn lemma_embed_mul(a: int, b: int)
    requires
        0 <= a < fp(),
        0 <= b < fp(),
    ensures
        emul(embed(a), embed(b)) == embed(fmul(a, b)),
{
    vstd::arithmetic::div_mod::lemma_small_mod(0nat, fp() as nat);
    assert(fmul(a, 0) == 0);
    assert(fmul(0, b) == 0);
    assert(fmul(EXT_W as int, 0) == 0);
    assert(fadd(fmul(a, 0), fmul(0, b)) == 0);
    let ab = fmul(a, b);
    assert(0 <= ab < fp()) by {
        vstd::arithmetic::div_mod::lemma_mod_bound(a * b, fp());
        assert(a * b >= 0) by (nonlinear_arith)
            requires a >= 0, b >= 0;
    }
    assert(fadd(ab, 0) == ab) by {
        vstd::arithmetic::div_mod::lemma_small_mod(ab as nat, fp() as nat);
    }
}

/// Subtracting an extension element from itself gives zero.
pub proof fn lemma_esub_self(a: (int, int))
    requires
        0 <= a.0 < fp(),
        0 <= a.1 < fp(),
    ensures
        esub(a, a) == ext_zero_view(),
{
    vstd::arithmetic::div_mod::lemma_mod_self_0(fp());
}

} // verus!
