//! What the server answers to a command.

use vstd::prelude::*;
use crate::common::Command;
use crate::common::Record;
use crate::common::Reply;
use crate::common::Response;
use crate::engines::KvsEngine;
use crate::errors::KvsError;

verus! {

/// The answer to a `Get`, as contracts speak of it: the value, or the
/// message of the error.
pub open spec fn get_reply(r: Result<Option<String>, KvsError>) -> Reply {
    match r {
        Ok(Some(v)) => Reply::Success(Some(v@)),
        Ok(None) => Reply::Success(None),
        Err(e) => Reply::Failure(e@.message()),
    }
}

/// The answer to a `Set` or an `Rm`, as contracts speak of it: nothing, or
/// the message of the error.
pub open spec fn unit_reply(r: Result<(), KvsError>) -> Reply {
    match r {
        Ok(_) => Reply::Success(None),
        Err(e) => Reply::Failure(e@.message()),
    }
}

/// The answer to a `Get` to which the engine gave `r`.
pub fn get_response(r: Result<Option<String>, KvsError>) -> (res: Response)
    ensures
        res@ == get_reply(r),
{
    match r {
        Ok(value) => Response::Success(value),
        Err(e) => Response::Failure(e.to_string()),
    }
}

/// The answer to a `Set` or an `Rm` to which the engine gave `r`.
pub fn unit_response(r: Result<(), KvsError>) -> (res: Response)
    ensures
        res@ == unit_reply(r),
{
    match r {
        Ok(_) => Response::Success(None),
        Err(e) => Response::Failure(e.to_string()),
    }
}

/// Whether `res` is the answer to a result that the engine may give to a
/// `get` of `key`.
pub open spec fn answers_get<T: KvsEngine>(store: T, key: Seq<char>, res: Reply) -> bool {
    exists|r: Result<Option<String>, KvsError>|
        #![trigger store.get_gives(key, r)]
        store.get_gives(key, r) && res == get_reply(r)
}

/// Whether `res` is the answer to a result that the engine may give to a
/// `set` of `key` to `value`.
pub open spec fn answers_set<T: KvsEngine>(
    store: T,
    key: Seq<char>,
    value: Seq<char>,
    res: Reply,
) -> bool {
    exists|r: Result<(), KvsError>|
        #![trigger store.set_gives(key, value, r)]
        store.set_gives(key, value, r) && res == unit_reply(r)
}

/// Whether `res` is the answer to a result that the engine may give to a
/// `remove` of `key`.
pub open spec fn answers_remove<T: KvsEngine>(store: T, key: Seq<char>, res: Reply) -> bool {
    exists|r: Result<(), KvsError>|
        #![trigger store.remove_gives(key, r)]
        store.remove_gives(key, r) && res == unit_reply(r)
}

/// Whether `res` answers the command `cmd` on the engine `store`: it is
/// the answer to a result that the engine may give to the call that the
/// command asks for, a `get` of its key, a `set` of its key to its value,
/// or a `remove` of its key.
pub open spec fn answers<T: KvsEngine>(store: T, cmd: Record, res: Reply) -> bool {
    match cmd {
        Record::Get(key) => answers_get(store, key, res),
        Record::Put(key, value) => answers_set(store, key, value, res),
        Record::Rm(key) => answers_remove(store, key, res),
    }
}

/// Carries out one command on the engine and answers it: the call that
/// the command asks for is made once, with the key and the value of the
/// command, and what the engine gives is turned into the answer, a value or
/// nothing for success and the message of the error for a failure. The
/// answer to a `Set` or an `Rm` never holds a value.
pub fn handle_command<T: KvsEngine>(store: &T, cmd: Command) -> (res: Response)
    ensures
        answers(*store, cmd@, res@),
        !(cmd@ is Get) ==> !(res@ matches Reply::Success(Some(_))),
{
    match cmd {
        Command::Get(key) => {
            let r = store.get(key);
            let ghost given = r;
            let res = get_response(r);
            assert(store.get_gives(key@, given) && res@ == get_reply(given));
            res
        },
        Command::Put(key, value) => {
            let r = store.set(key, value);
            let ghost given = r;
            let res = unit_response(r);
            assert(store.set_gives(key@, value@, given) && res@ == unit_reply(given));
            res
        },
        Command::Rm(key) => {
            let r = store.remove(key);
            let ghost given = r;
            let res = unit_response(r);
            assert(store.remove_gives(key@, given) && res@ == unit_reply(given));
            res
        },
    }
}

} // verus!
