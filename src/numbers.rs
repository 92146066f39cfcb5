use vstd::prelude::*;

verus! {

/// An index of one of the `ND` dimensions: always below `ND`.
#[derive(Clone, Copy, Debug, PartialEq, Eq)]
pub struct Fin<const ND: usize>(usize);

impl<const ND: usize> Fin<ND> {
    #[verifier::type_invariant]
    spec fn inv(self) -> bool {
        self.0 < ND
    }

    /// The dimension index as a number.
    pub closed spec fn index(self) -> nat {
        self.0 as nat
    }

    pub fn into_usize(self) -> (r: usize)
        ensures
            r == self.index(),
            r < ND,
    {
        proof {
            use_type_invariant(self);
        }
        self.0
    }
}

impl<const ND: usize> TryFrom<usize> for Fin<ND> {
    type Error = ();

    fn try_from(value: usize) -> (r: Result<Self, Self::Error>)
        ensures
            value < ND <==> r is Ok,
            r is Ok ==> r->Ok_0.index() == value,
    {
        if value < ND {
            Ok(Fin(value))
        } else {
            Err(())
        }
    }
}

impl<const ND: usize> vstd::std_specs::convert::TryFromSpecImpl<usize> for Fin<ND> {
    open spec fn obeys_try_from_spec() -> bool {
        true
    }

    closed spec fn try_from_spec(v: usize) -> Result<Self, Self::Error> {
        if v < ND {
            Ok(Fin(v))
        } else {
            Err(())
        }
    }
}

} // verus!
