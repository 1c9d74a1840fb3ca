//! Calendar dates, as plain year-month-day values.
//!
//! Feed timestamps reach the crate already reduced to the calendar day they
//! fall on; batching and rendering only ever need that day. Dates render as
//! `YYYY-MM-DD` with zero padding.

use vstd::prelude::*;
use vstd::string::StringExecFns;
use crate::text::{spec_digits, left_pad, append_padded_digits};

verus! {

/// A calendar date. Equality is field equality.
#[derive(Clone, Copy, Debug, PartialEq, Eq, Structural)]
pub struct Date {
    pub year: u32,
    pub month: u32,
    pub day: u32,
}

/// Whether the fields lie in calendar range.
pub open spec fn date_valid(d: Date) -> bool {
    &&& 1 <= d.year <= 9999
    &&& 1 <= d.month <= 12
    &&& 1 <= d.day <= 31
}

/// A date rendered as `YYYY-MM-DD`, zero padded.
pub open spec fn spec_format_date(d: Date) -> Seq<char> {
    left_pad(spec_digits(d.year as nat), '0', 4) + seq!['-'] + left_pad(
        spec_digits(d.month as nat),
        '0',
        2,
    ) + seq!['-'] + left_pad(spec_digits(d.day as nat), '0', 2)
}

impl Date {
    /// The date with the given fields, when they lie in calendar range.
    pub fn new(year: u32, month: u32, day: u32) -> (r: Option<Date>)
        ensures
            r is Some <==> date_valid(Date { year, month, day }),
            r matches Some(d) ==> d == (Date { year, month, day }),
    {
        if 1 <= year && year <= 9999 && 1 <= month && month <= 12 && 1 <= day && day <= 31 {
            Some(Date { year, month, day })
        } else {
            None
        }
    }

    /// Append this date as `YYYY-MM-DD`.
    pub fn append_format(&self, out: &mut String)
        ensures
            final(out)@ == old(out)@ + spec_format_date(*self),
    {
        append_padded_digits(out, self.year as u128, 4);
        out.append("-");
        append_padded_digits(out, self.month as u128, 2);
        out.append("-");
        append_padded_digits(out, self.day as u128, 2);
        proof {
            reveal_strlit("-");
            assert("-"@ =~= seq!['-']);
            assert(out@ =~= old(out)@ + spec_format_date(*self));
        }
    }

    /// This date as a fresh `YYYY-MM-DD` string.
    pub fn format(&self) -> (r: String)
        ensures
            r@ == spec_format_date(*self),
    {
        let mut out = String::new();
        self.append_format(&mut out);
        proof {
            assert(out@ =~= spec_format_date(*self));
        }
        out
    }
}

} // verus!
