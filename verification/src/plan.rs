//! Reusable DFT plan for repeated transforms of the same length: the length is
//! validated and the transform strategy chosen once.
use vstd::prelude::*;
use core::marker::PhantomData;
use crate::error::{DftError, DftResult, validate_length, valid_length, MAX_DFT_SIZE};
use crate::factorization::{choose_strategy, strategy_for, TransformStrategy};

verus! {

/// A pre-computed plan for repeated DFTs of the same length.
pub struct DFTPlan<T> {
    n: usize,
    strategy: TransformStrategy,
    _marker: PhantomData<T>,
}

impl<T> DFTPlan<T> {
    /// The DFT length of the plan.
    pub closed spec fn len_spec(&self) -> nat {
        self.n as nat
    }

    /// The transform strategy of the plan.
    pub closed spec fn strategy_spec(&self) -> TransformStrategy {
        self.strategy
    }

    #[verifier::type_invariant]
    spec fn well_formed(self) -> bool {
        &&& valid_length(self.n as nat)
        &&& self.strategy == strategy_for(self.n as nat)
    }

    /// Create a new DFTPlan for `n` samples: validates the length and chooses
    /// the transform strategy.
    pub fn new(n: usize) -> (r: DftResult<Self>)
        ensures
            match r {
                Ok(plan) => valid_length(n as nat) && plan.len_spec() == n && plan.strategy_spec()
                    == strategy_for(n as nat),
                Err(e) => {
                    &&& n == 0 ==> e == DftError::ZeroLength
                    &&& n > MAX_DFT_SIZE ==> e == DftError::TooLarge(n)
                    &&& !valid_length(n as nat)
                },
            },
    {
        match validate_length(n) {
            Ok(()) => {},
            Err(e) => {
                return Err(e);
            },
        }
        proof {
            crate::error::lemma_max_dft_size();
        }
        let strategy = match choose_strategy(n) {
            Ok(s) => s,
            Err(e) => {
                return Err(e);
            },
        };
        Ok(DFTPlan { n, strategy, _marker: PhantomData })
    }

    /// Return the DFT length this plan was created for.
    pub fn n(&self) -> (r: usize)
        ensures
            r == self.len_spec(),
            valid_length(r as nat),
    {
        proof {
            use_type_invariant(self);
        }
        self.n
    }

    /// Return the transform strategy for this plan.
    pub fn strategy(&self) -> (r: &TransformStrategy)
        ensures
            *r == self.strategy_spec(),
            *r == strategy_for(self.len_spec()),
    {
        proof {
            use_type_invariant(self);
        }
        &self.strategy
    }
}

} // verus!
