//! The conversion-task boundary: document conversions run outside, on a
//! worker, and deliver one result each.  At most one conversion and one
//! import may be in flight at a time; a new request while one is pending is
//! rejected with a busy notice, never queued.  The guard here makes those
//! rules explicit flags, and the poll steps decide what a delivered result
//! does to the editing session: a successful import replaces the buffer, a
//! failure leaves it untouched and surfaces the error text.

use vstd::prelude::*;

verus! {

/// Which requests are in flight.
pub struct TaskGuard {
    pub conversion_pending: bool,
    pub import_pending: bool,
}

impl TaskGuard {
    /// A fresh session: nothing in flight.
    pub fn new() -> (r: TaskGuard)
        ensures
            !r.conversion_pending,
            !r.import_pending,
    {
        TaskGuard { conversion_pending: false, import_pending: false }
    }

    /// Asks to start an export conversion: refused exactly when one is
    /// already in flight.
    pub fn try_begin_conversion(&mut self) -> (ok: bool)
        ensures
            ok == !old(self).conversion_pending,
            final(self).conversion_pending,
            final(self).import_pending == old(self).import_pending,
    {
        if self.conversion_pending {
            false
        } else {
            self.conversion_pending = true;
            true
        }
    }

    /// Asks to start an import: refused exactly when any file task — import
    /// or conversion — is already in flight.
    pub fn try_begin_import(&mut self) -> (ok: bool)
        ensures
            ok == (!old(self).import_pending && !old(self).conversion_pending),
            final(self).conversion_pending == old(self).conversion_pending,
            final(self).import_pending == (old(self).import_pending || ok),
    {
        if self.import_pending || self.conversion_pending {
            false
        } else {
            self.import_pending = true;
            true
        }
    }

    /// One poll of the conversion channel.  A result is handled only while a
    /// conversion is in flight: the flag clears and the result — the success
    /// notice or the error text — is handed back for display.  Otherwise
    /// nothing changes and nothing is reported.
    pub fn poll_conversion(&mut self, delivered: Option<Result<Vec<char>, Vec<char>>>) -> (r:
        Option<Result<Vec<char>, Vec<char>>>)
        ensures
            final(self).import_pending == old(self).import_pending,
            old(self).conversion_pending && delivered is Some ==> !final(self).conversion_pending
                && r == delivered,
            !(old(self).conversion_pending && delivered is Some) ==> final(self).conversion_pending
                == old(self).conversion_pending && r is None,
    {
        if self.conversion_pending {
            match delivered {
                Some(result) => {
                    self.conversion_pending = false;
                    Some(result)
                },
                None => None,
            }
        } else {
            None
        }
    }

    /// One poll of the import channel.  A result is handled only while an
    /// import is in flight: the flag clears, a successful result replaces
    /// the buffer, and a failure leaves the buffer untouched and hands the
    /// error text back.  Otherwise nothing changes.
    pub fn poll_import(&mut self, buf: &mut Vec<char>, delivered: Option<
        Result<Vec<char>, Vec<char>>,
    >) -> (err: Option<Vec<char>>)
        ensures
            final(self).conversion_pending == old(self).conversion_pending,
            old(self).import_pending && delivered is Some ==> !final(self).import_pending,
            match delivered {
                Some(Result::<Vec<char>, Vec<char>>::Ok(t)) => old(self).import_pending
                    ==> final(buf)@ == t@ && err is None,
                Some(Result::<Vec<char>, Vec<char>>::Err(e)) => old(self).import_pending
                    ==> final(buf)@ == old(buf)@ && err == Some(e),
                None => true,
            },
            !(old(self).import_pending && delivered is Some) ==> final(self).import_pending
                == old(self).import_pending && final(buf)@ == old(buf)@ && err is None,
    {
        if self.import_pending {
            match delivered {
                Some(result) => {
                    self.import_pending = false;
                    match result {
                        Ok(t) => {
                            *buf = t;
                            None
                        },
                        Err(e) => Some(e),
                    }
                },
                None => None,
            }
        } else {
            None
        }
    }
}

} // verus!
