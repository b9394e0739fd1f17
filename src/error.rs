use vstd::prelude::*;

verus! {

/// What can go wrong on the bus; `E` is the error type of the pin driver.
#[derive(Debug, PartialEq, Eq)]
pub enum Error<E> {
    /// The idle line never read high before a reset: it is shorted or stuck.
    WireNotHigh,
    /// A checksum did not match the data it covers.
    CrcMismatch { computed: u8, expected: u8 },
    /// A driver was given a device of another family.
    FamilyCodeMismatch { expected: u8, actual: u8 },
    /// A diagnostic value.
    Debug(Option<u8>),
    /// The pin driver itself failed.
    PortError(E),
}

impl<E> From<E> for Error<E> {
    fn from(e: E) -> (r: Error<E>)
        ensures
            r == Error::PortError(e),
    {
        Error::PortError(e)
    }
}

impl<E> vstd::std_specs::convert::FromSpecImpl<E> for Error<E> {
    open spec fn obeys_from_spec() -> bool {
        true
    }

    open spec fn from_spec(e: E) -> Error<E> {
        Error::PortError(e)
    }
}

} // verus!
