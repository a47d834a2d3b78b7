//! The storage backends a data directory can be written by.

use vstd::prelude::*;
use crate::text::str_equal;

verus! {

/// The backend that owns a data directory.
#[allow(non_camel_case_types)]
#[derive(Debug, Clone, Copy, PartialEq, Eq, Structural)]
pub enum Engine {
    kvs,
    sled,
}

/// The text that names the `sled` backend.
pub open spec fn sled_name() -> Seq<char> {
    seq!['s', 'l', 'e', 'd']
}

/// The text that names the `kvs` backend.
pub open spec fn kvs_name() -> Seq<char> {
    seq!['k', 'v', 's']
}

impl Engine {
    /// The name of the backend, as it is written to the sidecar file.
    pub open spec fn name(self) -> Seq<char> {
        match self {
            Engine::kvs => kvs_name(),
            Engine::sled => sled_name(),
        }
    }

    /// Reads a backend name: `sled` names the sled backend, every other
    /// text the bespoke one.
    pub fn from_string(s: &str) -> (r: Engine)
        ensures
            r == (if s@ == sled_name() { Engine::sled } else { Engine::kvs }),
    {
        proof {
            reveal_strlit("sled");
            assert("sled"@ =~= sled_name());
        }
        if str_equal(s, "sled") {
            Engine::sled
        } else {
            Engine::kvs
        }
    }

    /// The backend's name.
    pub fn to_string(&mut self) -> (r: String)
        ensures
            r@ == old(self).name(),
            *final(self) == *old(self),
    {
        proof {
            reveal_strlit("sled");
            reveal_strlit("kvs");
            assert("sled"@ =~= sled_name());
            assert("kvs"@ =~= kvs_name());
        }
        match self {
            Engine::kvs => "kvs".to_owned(),
            Engine::sled => "sled".to_owned(),
        }
    }
}

/// The backend used where none is asked for and the directory names none.
pub open spec fn default_engine() -> Engine {
    Engine::kvs
}

/// The message of the error for a directory that another backend wrote.
pub open spec fn wrong_engine_message() -> Seq<char> {
    "Wrong engine provided"@
}

/// The backend to open a data directory with, and whether its name has to
/// be written to the directory.
pub struct Selection {
    pub engine: Engine,
    pub record: bool,
}

/// What `select_engine` owes: for a directory that names its backend, that
/// backend, unless another one is asked for, which is an error; for a
/// directory that names none, the backend asked for, or the default, to be
/// written to the directory.
pub open spec fn selection(current: Option<Seq<char>>, requested: Option<Engine>) -> Result<
    Selection,
    Seq<char>,
> {
    match current {
        Some(name) => match requested {
            Some(asked) => if asked.name() == name {
                Ok(Selection { engine: asked, record: false })
            } else {
                Err(wrong_engine_message())
            },
            None => Ok(
                Selection {
                    engine: if name == sled_name() {
                        Engine::sled
                    } else {
                        Engine::kvs
                    },
                    record: false,
                },
            ),
        },
        None => Ok(
            Selection {
                engine: match requested {
                    Some(asked) => asked,
                    None => default_engine(),
                },
                record: true,
            },
        ),
    }
}

/// Chooses the backend for a data directory: `current` is the name that
/// the directory holds, where it holds one, and `requested` the backend
/// that was asked for, where one was. A directory is never opened with a
/// backend other than the one that wrote it.
pub fn select_engine(current: Option<&str>, requested: Option<Engine>) -> (r: Result<
    Selection,
    crate::errors::KvsError,
>)
    ensures
        match selection(
            match current {
                Some(name) => Some(name@),
                None => None,
            },
            requested,
        ) {
            Ok(s) => r == Ok::<Selection, crate::errors::KvsError>(s),
            Err(m) => r matches Err(e) && e@ == crate::errors::Fault::Other(m),
        },
{
    match current {
        Some(name) => match requested {
            Some(asked) => {
                let mut opt_engine = asked;
                let asked_name = opt_engine.to_string();
                if str_equal(asked_name.as_str(), name) {
                    Ok(Selection { engine: asked, record: false })
                } else {
                    Err(crate::errors::KvsError::Misc("Wrong engine provided".to_owned()))
                }
            },
            None => Ok(Selection { engine: Engine::from_string(name), record: false }),
        },
        None => {
            let engine = match requested {
                Some(asked) => asked,
                None => Engine::kvs,
            };
            Ok(Selection { engine, record: true })
        },
    }
}

} // verus!
