use vstd::prelude::*;
use crate::error::XimError;

verus! {

/// `std::io::Error::new` with `ErrorKind::InvalidData` and the message
/// `msg`.  Nothing is stated of the error value: its kind and message are
/// read through methods of `std::io::Error` that this library does not
/// specify, so the caller's contract says only that an I/O error comes
/// back.
#[verifier::external_body]
fn invalid_data(msg: &str) -> std::io::Error {
    std::io::Error::new(std::io::ErrorKind::InvalidData, msg)
}

/// The number of i16 values held by a mapped file of `byte_len` bytes.
/// Fails with an I/O error when the length is odd.
pub fn i16_count(byte_len: usize) -> (r: Result<usize, XimError>)
    ensures
        byte_len % 2 == 0 <==> r is Ok,
        r matches Ok(n) ==> n == byte_len / 2,
        r matches Err(e) ==> e is Io,
{
    if byte_len % 2 != 0 {
        return Err(XimError::Io(invalid_data("Mmap length is not a multiple of 2 (i16 size)")));
    }
    Ok(byte_len / 2)
}

} // verus!
