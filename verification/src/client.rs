//! What a client makes of the server's answer.

use vstd::prelude::*;
use crate::common::Reply;
use crate::common::Response;
use crate::errors::Fault;
use crate::errors::KvsError;

verus! {

/// The result of a `Get` that the server answered with `res`: the value,
/// or the server's message as an error.
pub fn get_result(res: Response) -> (r: Result<Option<String>, KvsError>)
    ensures
        match res@ {
            Reply::Success(v) => r matches Ok(w) && (match w {
                Some(s) => v == Some(s@),
                None => v is None,
            }),
            Reply::Failure(m) => r matches Err(e) && e@ == Fault::Other(m),
        },
{
    match res {
        Response::Success(value) => Ok(value),
        Response::Failure(error) => Err(KvsError::Misc(error)),
    }
}

/// The result of a `Set` or an `Rm` that the server answered with `res`:
/// success, or the server's message as an error.
pub fn unit_result(res: Response) -> (r: Result<(), KvsError>)
    ensures
        match res@ {
            Reply::Success(_) => r is Ok,
            Reply::Failure(m) => r matches Err(e) && e@ == Fault::Other(m),
        },
{
    match res {
        Response::Success(_) => Ok(()),
        Response::Failure(e) => Err(KvsError::Misc(e)),
    }
}

} // verus!
