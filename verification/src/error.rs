//! What can go wrong.
use vstd::prelude::*;

use crate::storage::Fault;

verus! {

/// The ways in which the log can fail.
#[derive(Clone, Copy, Debug, PartialEq, Eq, Structural)]
pub enum Error {
    /// The data has no place in the storage.
    StorageSize,
    /// The storage failed to read.
    StorageRead,
    /// The storage failed to write.
    StorageWrite,
    /// The storage failed to erase.
    StorageErase,
    /// The log buffer was in use.
    BBBuffer,
}

/// The failed requests of a storage after work that has ended in `r`: one more
/// where the storage is to blame, of the kind that the error names.
pub open spec fn faulted<T>(faults: Seq<Fault>, r: Result<T, Error>) -> Seq<Fault> {
    match r {
        Err(Error::StorageRead) => faults.push(Fault::Read),
        Err(Error::StorageWrite) => faults.push(Fault::Write),
        Err(Error::StorageErase) => faults.push(Fault::Erase),
        _ => faults,
    }
}

/// What the log reports of a read that ended in `r`.
pub fn read_outcome<E>(r: Result<(), E>) -> (outcome: Result<(), Error>)
    ensures
        outcome == if r is Ok {
            Ok::<(), Error>(())
        } else {
            Err(Error::StorageRead)
        },
{
    match r {
        Ok(_) => Ok(()),
        Err(_) => Err(Error::StorageRead),
    }
}

/// What the log reports of a write that ended in `r`.
pub fn write_outcome<E>(r: Result<(), E>) -> (outcome: Result<(), Error>)
    ensures
        outcome == if r is Ok {
            Ok::<(), Error>(())
        } else {
            Err(Error::StorageWrite)
        },
{
    match r {
        Ok(_) => Ok(()),
        Err(_) => Err(Error::StorageWrite),
    }
}

/// What the log reports of an erasure that ended in `r`.
pub fn erase_outcome<E>(r: Result<(), E>) -> (outcome: Result<(), Error>)
    ensures
        outcome == if r is Ok {
            Ok::<(), Error>(())
        } else {
            Err(Error::StorageErase)
        },
{
    match r {
        Ok(_) => Ok(()),
        Err(_) => Err(Error::StorageErase),
    }
}

} // verus!
