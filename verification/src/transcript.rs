//! A deterministic Fiat-Shamir transcript over the scalar field: every
//! message is absorbed into one running state, and each challenge is a pure
//! function of everything absorbed before it. Prover and verifier feeding
//! identical message sequences derive identical challenges.
use vstd::prelude::*;

verus! {

use crate::field::{Fe, f_add, f_mul, modulus};
use crate::subtable::vals_of;

/// The multiplier by which the state is stirred before each absorbed value.
pub const TRANSCRIPT_MIX: u64 = 1099511628211;

/// One absorption step: stir the state and add the value, reduced.
pub open spec fn mix(st: int, v: int) -> int {
    f_add(f_mul(st, TRANSCRIPT_MIX as int), v % modulus())
}

/// Absorbing a byte string, front to back.
pub open spec fn mix_bytes(st: int, bs: Seq<u8>) -> int
    decreases bs.len(),
{
    if bs.len() == 0 {
        st
    } else {
        mix_bytes(mix(st, bs[0] as int), bs.skip(1))
    }
}

/// Absorbing a sequence of already-reduced values, front to back.
pub open spec fn mix_all(st: int, vs: Seq<int>) -> int
    decreases vs.len(),
{
    if vs.len() == 0 {
        st
    } else {
        mix_all(mix(st, vs[0]), vs.skip(1))
    }
}

/// A Fiat-Shamir transcript: one running field element of state.
pub struct Transcript {
    pub state: Fe,
}

impl Transcript {
    /// The transcript's current state value.
    pub open spec fn st(self) -> int {
        self.state.val()
    }

    /// Well-formedness: the state is reduced.
    pub open spec fn wf(self) -> bool {
        self.state.inv()
    }

    /// A fresh transcript whose state absorbs the domain label.
    pub fn new(label: &[u8]) -> (r: Self)
        ensures
            r.wf(),
            r.st() == mix_bytes(0, label@),
    {
        let mut t = Transcript { state: Fe::zero() };
        t.absorb_bytes(label);
        t
    }

    /// Absorbs one raw value.
    fn absorb_u64(&mut self, v: u64)
        requires
            old(self).wf(),
        ensures
            final(self).wf(),
            final(self).st() == mix(old(self).st(), v as int),
    {
        proof {
            vstd::arithmetic::div_mod::lemma_small_mod(TRANSCRIPT_MIX as nat, modulus() as nat);
        }
        self.state = self.state.mul(Fe::from_u64(TRANSCRIPT_MIX)).add(Fe::from_u64(v));
    }

    /// Absorbs a byte string, front to back.
    fn absorb_bytes(&mut self, bs: &[u8])
        requires
            old(self).wf(),
        ensures
            final(self).wf(),
            final(self).st() == mix_bytes(old(self).st(), bs@),
    {
        let mut i: usize = 0;
        proof {
            assert(bs@.skip(0) =~= bs@);
        }
        while i < bs.len()
            invariant
                i <= bs@.len(),
                self.wf(),
                mix_bytes(self.st(), bs@.skip(i as int)) == mix_bytes(old(self).st(), bs@),
            decreases bs@.len() - i,
        {
            let b = bs[i];
            proof {
                assert(bs@.skip(i as int)[0] == b);
                assert(bs@.skip(i as int).skip(1) =~= bs@.skip(i as int + 1));
                vstd::arithmetic::div_mod::lemma_small_mod(b as nat, modulus() as nat);
            }
            self.absorb_u64(b as u64);
            i = i + 1;
        }
        proof {
            assert(bs@.skip(bs@.len() as int) =~= Seq::<u8>::empty());
        }
    }

    /// Absorbs one scalar, unlabelled.
    pub fn absorb_scalar(&mut self, x: &Fe)
        requires
            old(self).wf(),
            x.inv(),
        ensures
            final(self).wf(),
            final(self).st() == mix(old(self).st(), x.val()),
    {
        proof {
            vstd::arithmetic::div_mod::lemma_small_mod(x.val() as nat, modulus() as nat);
        }
        self.absorb_u64(x.as_u64());
    }

    /// Absorbs a sequence of scalars, front to back.
    pub fn absorb_scalars(&mut self, xs: &Vec<Fe>)
        requires
            old(self).wf(),
            crate::subtable::all_inv(xs@),
        ensures
            final(self).wf(),
            final(self).st() == mix_all(old(self).st(), vals_of(xs@)),
    {
        let mut i: usize = 0;
        proof {
            assert(vals_of(xs@).skip(0) =~= vals_of(xs@));
        }
        while i < xs.len()
            invariant
                i <= xs@.len(),
                self.wf(),
                crate::subtable::all_inv(xs@),
                mix_all(self.st(), vals_of(xs@).skip(i as int)) == mix_all(
                    old(self).st(),
                    vals_of(xs@),
                ),
            decreases xs@.len() - i,
        {
            proof {
                assert(vals_of(xs@).skip(i as int)[0] == xs@[i as int].val());
                assert(vals_of(xs@).skip(i as int).skip(1) =~= vals_of(xs@).skip(i as int + 1));
            }
            self.absorb_scalar(&xs[i]);
            i = i + 1;
        }
        proof {
            assert(vals_of(xs@).skip(xs@.len() as int) =~= Seq::<int>::empty());
        }
    }

    /// Derives an unlabelled challenge scalar: stirs the state once and
    /// returns it.
    pub fn challenge(&mut self) -> (r: Fe)
        requires
            old(self).wf(),
        ensures
            final(self).wf(),
            final(self).st() == challenge_state(old(self).st()),
            r.inv(),
            r.val() == final(self).st(),
    {
        self.absorb_u64(1);
        self.state
    }

    /// Appends a labelled byte message.
    pub fn append_message(&mut self, label: &[u8], msg: &[u8])
        requires
            old(self).wf(),
        ensures
            final(self).wf(),
            final(self).st() == mix_bytes(mix_bytes(old(self).st(), label@), msg@),
    {
        self.absorb_bytes(label);
        self.absorb_bytes(msg);
    }

    /// Appends a labelled machine word.
    pub fn append_u64(&mut self, label: &[u8], v: u64)
        requires
            old(self).wf(),
        ensures
            final(self).wf(),
            final(self).st() == mix(mix_bytes(old(self).st(), label@), v as int),
    {
        self.absorb_bytes(label);
        self.absorb_u64(v);
    }

    /// Appends a labelled scalar.
    pub fn append_scalar(&mut self, label: &[u8], x: &Fe)
        requires
            old(self).wf(),
            x.inv(),
        ensures
            final(self).wf(),
            final(self).st() == mix(mix_bytes(old(self).st(), label@), x.val()),
    {
        self.absorb_bytes(label);
        proof {
            vstd::arithmetic::div_mod::lemma_small_mod(x.val() as nat, modulus() as nat);
        }
        self.absorb_u64(x.as_u64());
    }

    /// Derives a labelled challenge scalar: absorbs the label, stirs once
    /// more, and returns the new state.
    pub fn challenge_scalar(&mut self, label: &[u8]) -> (r: Fe)
        requires
            old(self).wf(),
        ensures
            final(self).wf(),
            final(self).st() == challenge_state(mix_bytes(old(self).st(), label@)),
            r.inv(),
            r.val() == final(self).st(),
    {
        self.absorb_bytes(label);
        self.absorb_u64(1);
        self.state
    }
}

/// The state after one challenge derivation from the given state.
pub open spec fn challenge_state(st: int) -> int {
    mix(st, 1)
}

} // verus!
