//! The value model: a datum is a bounded integer or an uppercase letter.

use vstd::prelude::*;
use crate::errors::HRMRuntimeError;

verus! {

/// The sole runtime value: a number in -999 to 999, or an uppercase
/// ASCII letter held as its code point.
#[derive(Clone, Copy, Debug, PartialEq, Eq, Structural)]
pub enum DataCube {
    Number(i16),
    Letter(u8),
}

impl DataCube {
    /// The range and letter constraints a constructed datum satisfies.
    pub open spec fn wf(self) -> bool {
        match self {
            DataCube::Number(n) => -999 <= n <= 999,
            DataCube::Letter(c) => 65 <= c <= 90,
        }
    }

    /// Builds a number datum; rejects values outside -999 to 999.
    pub fn from_number(n: i64) -> (r: Result<DataCube, HRMRuntimeError>)
        ensures
            -999 <= n <= 999 ==> r == Ok::<DataCube, HRMRuntimeError>(
                DataCube::Number(n as i16),
            ),
            !(-999 <= n <= 999) ==> r == Err::<DataCube, HRMRuntimeError>(
                HRMRuntimeError::Overflow,
            ),
            r is Ok ==> r->Ok_0.wf(),
    {
        if n < -999 || n > 999 {
            Err(HRMRuntimeError::Overflow)
        } else {
            Ok(DataCube::Number(n as i16))
        }
    }

    /// Builds a letter datum; rejects anything but uppercase ASCII.
    pub fn from_char(c: char) -> (r: Option<DataCube>)
        ensures
            ('A' <= c && c <= 'Z') ==> r == Some(DataCube::Letter(c as u8)),
            !('A' <= c && c <= 'Z') ==> r is None,
            r is Some ==> r->0.wf(),
    {
        if c >= 'A' && c <= 'Z' {
            Some(DataCube::Letter(c as u8))
        } else {
            None
        }
    }
}

} // verus!
