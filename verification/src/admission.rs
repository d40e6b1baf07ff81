//! Admission policies: where a key seen for the first time goes, DRAM or
//! flash.
use vstd::prelude::*;

verus! {

pub trait AdmissionPolicy: Sized {
    /// The abstract state of the policy: what decides its answers.
    type Model;

    spec fn model(&self) -> Self::Model;

    /// The state after `admit_to_dram(key, t)`, and its answer.
    spec fn model_decide(m: Self::Model, key: u64, t: u64) -> (Self::Model, bool);

    /// Every call answers DRAM.
    spec fn admits_all(&self) -> bool;

    /// Every call answers flash.
    spec fn admits_none(&self) -> bool;

    spec fn label_text(&self) -> Seq<char>;

    /// On a first touch: true if `key` should go to DRAM, false for flash.
    fn admit_to_dram(&mut self, key: u64, t: u64) -> (r: bool)
        ensures
            (final(self).model(), r) == Self::model_decide(old(self).model(), key, t),
            old(self).admits_all() ==> r && final(self).admits_all(),
            old(self).admits_none() ==> !r && final(self).admits_none(),
            final(self).label_text() == old(self).label_text(),
    ;

    fn label(&self) -> (s: &'static str)
        ensures
            s@ == self.label_text(),
    ;
}

/// Always admit new keys to DRAM (the default).
pub struct AdmitToDram;

impl AdmissionPolicy for AdmitToDram {
    type Model = ();

    open spec fn model(&self) -> () {
        ()
    }

    open spec fn model_decide(m: (), key: u64, t: u64) -> ((), bool) {
        ((), true)
    }

    open spec fn admits_all(&self) -> bool {
        true
    }

    open spec fn admits_none(&self) -> bool {
        false
    }

    open spec fn label_text(&self) -> Seq<char> {
        "admit-dram"@
    }

    fn admit_to_dram(&mut self, key: u64, t: u64) -> (r: bool)
        ensures
            r,
    {
        true
    }

    fn label(&self) -> (s: &'static str) {
        "admit-dram"
    }
}

/// Admit new keys straight to flash; DRAM is reached only by promotion.
pub struct AdmitToFlash;

impl AdmissionPolicy for AdmitToFlash {
    type Model = ();

    open spec fn model(&self) -> () {
        ()
    }

    open spec fn model_decide(m: (), key: u64, t: u64) -> ((), bool) {
        ((), false)
    }

    open spec fn admits_all(&self) -> bool {
        false
    }

    open spec fn admits_none(&self) -> bool {
        true
    }

    open spec fn label_text(&self) -> Seq<char> {
        "admit-flash"@
    }

    fn admit_to_dram(&mut self, key: u64, t: u64) -> (r: bool)
        ensures
            !r,
    {
        false
    }

    fn label(&self) -> (s: &'static str) {
        "admit-flash"
    }
}

} // verus!
