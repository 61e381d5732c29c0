//! What the settings store must look like before the payload is trusted:
//! exactly one row, under the expected identifier. The caller queries the
//! backing table and hands the counts here; this module decides.

use vstd::prelude::*;

verus! {

/// Why a backing store was rejected: it holds some other number of rows
/// than one, or its single row has an unexpected identifier.
#[derive(Debug, PartialEq, Eq)]
pub enum StorageError {
    WrongRowCount(u32),
    WrongRowId(u32),
}

/// The expected identifier of the single settings row.
pub const SETTINGS_ROW_ID: u32 = 1;

/// Accepts the store only when it holds exactly one row and that row's
/// identifier is the expected sentinel.
pub fn check_store_row(number_of_rows: u32, id: u32) -> (r: Result<(), StorageError>)
    ensures
        (match r {
            Ok(_) => number_of_rows == 1 && id == SETTINGS_ROW_ID,
            Err(e) => (match e {
                StorageError::WrongRowCount(n) => n == number_of_rows && number_of_rows != 1,
                StorageError::WrongRowId(i) => i == id && number_of_rows == 1 && id
                    != SETTINGS_ROW_ID,
            }),
        }),
{
    if number_of_rows != 1 {
        Err(StorageError::WrongRowCount(number_of_rows))
    } else if id != SETTINGS_ROW_ID {
        Err(StorageError::WrongRowId(id))
    } else {
        Ok(())
    }
}

} // verus!
