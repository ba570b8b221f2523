//! The capability that a payload has to offer: bytes on request.

use vstd::prelude::*;

verus! {

/// `std::io::Error`, the error of a payload. It is handed on as it comes;
/// nothing is known of what it holds.
#[verifier::external_type_specification]
#[verifier::external_body]
pub struct ExIoError(std::io::Error);

/// A supply of payload bytes that is read on demand.
///
/// `read` follows the convention of `std::io::Read::read`: it places bytes
/// at the front of `buf` and reports how many, `Ok(0)` for a buffer that is
/// not empty means that the payload has ended, and an error means that the
/// payload cannot be completed. Nothing is assumed about which bytes arrive,
/// nor that the same bytes would arrive with buffers of another size.
///
/// All that is asked of an implementation is that the count does not exceed
/// the buffer, as the convention has it. Of an implementation that is not
/// verified this is believed, not proved.
pub trait Source {
    fn read(&mut self, buf: &mut [u8]) -> (r: Result<usize, std::io::Error>)
        ensures
            final(buf)@.len() == old(buf)@.len(),
            r matches Ok(n) ==> n <= old(buf)@.len(),
    ;
}

/// A boxed source is a source: the reads go to what is in the box. With
/// `Box<dyn Source>` one form can hold payloads of different kinds.
impl<T: Source + ?Sized> Source for Box<T> {
    /// Hands the read on to the source in the box, once, and returns its
    /// answer: there is a call of that source's `read` which finds the
    /// source and the buffer as they were, returns `r`, and leaves the source
    /// and the buffer as they are afterwards. So whatever the source in the
    /// box promises of its `read` holds of the read of the box.
    fn read(&mut self, buf: &mut [u8]) -> (r: Result<usize, std::io::Error>)
        ensures
            (exists|inner: &mut T, given: &mut [u8]|
                #[trigger] call_ensures(T::read, (inner, given), r) && &*inner == &**old(self)
                    && &*final(inner) == &**final(self) && given@ == old(buf)@ && final(given)@
                    == final(buf)@),
    {
        let inner: &mut T = &mut **self;
        inner.read(buf)
    }
}

} // verus!
