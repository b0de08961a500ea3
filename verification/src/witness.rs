//! The witness store: a write-once mapping from targets to field elements,
//! created empty per proof instance and filled by generators. Reading an
//! unassigned target, or assigning a target twice, is a caller error; the
//! scheduler turns both into fatal generation errors.

use vstd::prelude::*;
use crate::field::{is_felt, FIELD_ORDER};
use crate::target::Target;
use crate::CircuitError;

verus! {

/// Value of `t` in witness view `w`, as an integer; 0 when unassigned
/// (meaningful only under `tset`).
pub open spec fn tv(w: Seq<Option<u64>>, t: Target) -> int {
    if t.index < w.len() {
        match w[t.index as int] {
            Some(v) => v as int,
            None => 0,
        }
    } else {
        0
    }
}

/// Whether `t` has been assigned a value in witness view `w`.
pub open spec fn tset(w: Seq<Option<u64>>, t: Target) -> bool {
    t.index < w.len() && w[t.index as int] is Some
}

/// Every assigned value is a canonical field element.
pub open spec fn wit_wf(w: Seq<Option<u64>>) -> bool {
    forall|i: int| 0 <= i < w.len() && w[i] is Some ==> is_felt(#[trigger] w[i]->0)
}

/// `w2` extends `w1`: same length, and every assignment of `w1` is kept.
pub open spec fn wit_extends(w2: Seq<Option<u64>>, w1: Seq<Option<u64>>) -> bool {
    w2.len() == w1.len()
    && forall|i: int| 0 <= i < w1.len() && w1[i] is Some ==> w2[i] == w1[i]
}

/// In a well-formed witness every assigned target holds a canonical field
/// element.
pub proof fn lemma_tv_felt(w: Seq<Option<u64>>, t: Target)
    requires
        wit_wf(w),
        tset(w, t),
    ensures
        0 <= tv(w, t) < crate::field::fp(),
        is_felt(tv(w, t) as u64),
{
    assert(w[t.index as int] is Some);
}

/// Extension preserves assigned targets: set-ness and values carry over.
pub proof fn lemma_extends_preserves(w2: Seq<Option<u64>>, w1: Seq<Option<u64>>, t: Target)
    requires
        wit_extends(w2, w1),
        tset(w1, t),
    ensures
        tset(w2, t),
        tv(w2, t) == tv(w1, t),
{
}

/// Extension of witnesses is transitive.
pub proof fn lemma_extends_trans(
    w3: Seq<Option<u64>>,
    w2: Seq<Option<u64>>,
    w1: Seq<Option<u64>>,
)
    requires
        wit_extends(w3, w2),
        wit_extends(w2, w1),
    ensures
        wit_extends(w3, w1),
{
    assert forall|i: int| 0 <= i < w1.len() && w1[i] is Some implies w3[i] == w1[i] by {
        assert(w2[i] == w1[i]);
    }
}

pub struct Witness {
    pub values: Vec<Option<u64>>,
}

impl View for Witness {
    type V = Seq<Option<u64>>;

    open spec fn view(&self) -> Seq<Option<u64>> {
        self.values@
    }
}

impl Witness {
    /// A fresh, entirely unassigned store for `num_targets` targets.
    pub fn new(num_targets: usize) -> (w: Witness)
        ensures
            w@.len() == num_targets,
            forall|i: int| 0 <= i < num_targets ==> w@[i] is None,
            wit_wf(w@),
    {
        let mut values: Vec<Option<u64>> = Vec::new();
        let mut k: usize = 0;
        while k < num_targets
            invariant
                k <= num_targets,
                values@.len() == k,
                forall|i: int| 0 <= i < k ==> values@[i] is None,
            decreases num_targets - k,
        {
            values.push(None);
            k = k + 1;
        }
        Witness { values }
    }

    pub fn is_set(&self, t: Target) -> (b: bool)
        ensures
            b == tset(self@, t),
    {
        t.index < self.values.len() && self.values[t.index].is_some()
    }

    /// Read an assigned target.
    pub fn get(&self, t: Target) -> (v: u64)
        requires
            tset(self@, t),
        ensures
            v as int == tv(self@, t),
    {
        self.values[t.index].unwrap()
    }

    /// Assign a target for the first time; the write-once discipline is the
    /// caller's obligation, checked by the scheduler before every write.
    pub fn set(&mut self, t: Target, v: u64)
        requires
            t.index < old(self)@.len(),
            !tset(old(self)@, t),
            is_felt(v),
        ensures
            final(self)@ == old(self)@.update(t.index as int, Some(v)),
            wit_wf(old(self)@) ==> wit_wf(final(self)@),
            wit_extends(final(self)@, old(self)@),
            tset(final(self)@, t),
            tv(final(self)@, t) == v as int,
    {
        self.values.set(t.index, Some(v));
        proof {
            if wit_wf(old(self)@) {
                assert forall|i: int| 0 <= i < self@.len() && self@[i] is Some
                    implies is_felt(#[trigger] self@[i]->0) by {
                    if i != t.index as int {
                        assert(self@[i] == old(self)@[i]);
                    }
                }
            }
        }
    }

    /// Read a target, reporting an unassigned or out-of-bounds one as the
    /// fatal error it is.
    pub fn try_get(&self, t: Target) -> (res: Result<u64, CircuitError>)
        ensures
            res == if tset(self@, t) {
                Ok::<u64, CircuitError>(tv(self@, t) as u64)
            } else {
                Err::<u64, CircuitError>(CircuitError::UnassignedTarget)
            },
    {
        if t.index < self.values.len() {
            match self.values[t.index] {
                Some(v) => Ok(v),
                None => Err(CircuitError::UnassignedTarget),
            }
        } else {
            Err(CircuitError::UnassignedTarget)
        }
    }

    /// Assign a target, enforcing the write-once discipline and canonicality
    /// at run time; a second write to the same target is a fatal error.
    pub fn try_set(&mut self, t: Target, v: u64) -> (res: Result<(), CircuitError>)
        ensures
            wit_extends(final(self)@, old(self)@),
            wit_wf(old(self)@) ==> wit_wf(final(self)@),
            res == if t.index >= old(self)@.len() {
                Err::<(), CircuitError>(CircuitError::TargetOutOfBounds)
            } else if !is_felt(v) {
                Err::<(), CircuitError>(CircuitError::ValueOutOfRange)
            } else if tset(old(self)@, t) {
                Err::<(), CircuitError>(CircuitError::DoubleAssignment)
            } else {
                Ok::<(), CircuitError>(())
            },
            res is Ok ==> final(self)@ == old(self)@.update(t.index as int, Some(v))
                && tset(final(self)@, t) && tv(final(self)@, t) == v as int,
            res is Err ==> final(self)@ == old(self)@,
    {
        if t.index >= self.values.len() {
            Err(CircuitError::TargetOutOfBounds)
        } else if v >= FIELD_ORDER {
            Err(CircuitError::ValueOutOfRange)
        } else if self.values[t.index].is_some() {
            Err(CircuitError::DoubleAssignment)
        } else {
            self.set(t, v);
            Ok(())
        }
    }
}

} // verus!
