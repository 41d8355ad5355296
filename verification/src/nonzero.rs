//! Numbers that are never zero.
use vstd::prelude::*;

verus! {

/// A `u32` that is never zero.
#[derive(Clone, Copy, Debug, PartialEq, Eq, Structural)]
pub struct NonZeroU32 {
    value: u32,
}

/// `spec_new` wraps the number that `spec_get` gives back.
pub broadcast proof fn lemma_nonzero_get_new(n: u32)
    ensures
        #[trigger] NonZeroU32::spec_new(n).spec_get() == n,
{
}

/// A value is determined by the number it holds.
pub broadcast proof fn lemma_nonzero_new_get(v: NonZeroU32)
    ensures
        #[trigger] NonZeroU32::spec_new(v.spec_get()) == v,
{
}

impl NonZeroU32 {
    /// The number held.
    pub closed spec fn spec_get(self) -> u32 {
        self.value
    }

    #[verifier::type_invariant]
    closed spec fn inv(self) -> bool {
        self.value != 0
    }

    /// Wraps `n`, or gives `None` when `n` is zero.
    pub fn new(n: u32) -> (res: Option<NonZeroU32>)
        ensures
            n == 0 ==> res is None,
            n != 0 ==> res == Some(NonZeroU32::spec_new(n)),
    {
        if n == 0 {
            None
        } else {
            Some(NonZeroU32 { value: n })
        }
    }

    /// The value `new(n)` wraps.
    pub closed spec fn spec_new(n: u32) -> NonZeroU32 {
        NonZeroU32 { value: n }
    }

    /// The number held, which is never zero.
    #[verifier::when_used_as_spec(spec_get)]
    pub fn get(self) -> (res: u32)
        ensures
            res == self.spec_get(),
            res != 0,
    {
        proof {
            use_type_invariant(&self);
        }
        self.value
    }
}

} // verus!
