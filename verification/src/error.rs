//! Operating and submission failures.

use crate::text::{a_decimal_reads_back, append_decimal, decimal, lemma_quotes, quotes};
use vstd::prelude::*;
use vstd::string::*;

verus! {

/// An operating failure carrying the errno the backend reported, if it had one.
#[derive(Debug, Clone, Copy, PartialEq, Eq, Hash, Structural)]
pub struct IoError {
    pub raw: Option<i32>,
}

impl IoError {
    /// A failure with an exact errno.
    pub fn from_raw(errno: i32) -> (error: Self)
        ensures
            error.raw == Some(errno),
    {
        IoError { raw: Some(errno) }
    }

    pub open spec fn text(self) -> Seq<char> {
        match self.raw {
            Some(errno) => if errno < 0 {
                "os error -"@ + decimal((-errno) as nat)
            } else {
                "os error "@ + decimal(errno as nat)
            },
            None => "unspecified I/O error"@,
        }
    }

    pub fn message(&self) -> (message: String)
        ensures
            message@ == self.text(),
    {
        match self.raw {
            Some(errno) => {
                if errno < 0 {
                    let mut out: String = String::from_str("os error -");
                    append_decimal(&mut out, (-(errno as i64)) as u64);
                    out
                } else {
                    let mut out: String = String::from_str("os error ");
                    append_decimal(&mut out, errno as u64);
                    out
                }
            },
            None => String::from_str("unspecified I/O error"),
        }
    }

    /// The errno, when the backend reported one.
    pub fn raw_os_error(&self) -> (errno: Option<i32>)
        ensures
            errno == self.raw,
    {
        self.raw
    }
}

/// Why the driver ring refuses an operation.
#[derive(Debug, Clone, Copy, PartialEq, Eq, Hash, Structural)]
pub enum SubmitError {
    /// Every operation slot is occupied.
    Full,
    /// The file handle no longer names an open file.
    StaleHandle,
}

/// An error with an errno quotes it, and shows a minus sign before a negative
/// one only.
pub proof fn an_error_quotes_its_errno(error: IoError, errno: i32)
    requires
        error.raw == Some(errno),
    ensures
        errno >= 0 ==> quotes(error.text(), errno as int) && error.text()[9] != '-',
        errno < 0 ==> quotes(error.text(), -errno) && error.text()[9] == '-',
{
    reveal_strlit("os error ");
    reveal_strlit("os error -");
    if errno < 0 {
        lemma_quotes("os error -"@, (-errno) as nat, Seq::empty());
    } else {
        lemma_quotes("os error "@, errno as nat, Seq::empty());
        a_decimal_reads_back(errno as nat);
        assert(error.text()[9] == decimal(errno as nat)[0]);
    }
    assert(error.text() + Seq::<char>::empty() =~= error.text());
}

} // verus!
