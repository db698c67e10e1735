//! Dates as they are stamped on a page.

use vstd::prelude::*;

use crate::numtext::digit_char;

verus! {

/// A day of the calendar.
#[derive(Clone, Copy, Debug, PartialEq, Eq, Structural)]
pub struct Date {
    pub year: u16,
    pub month: u8,
    pub day: u8,
}

impl Date {
    pub open spec fn wf(self) -> bool {
        self.year <= 9999 && 1 <= self.month <= 12 && 1 <= self.day <= 31
    }

    /// Day, month and year, with points between.
    pub open spec fn de_text(self) -> Seq<char> {
        two_digits(self.day as int).push('.') + two_digits(self.month as int).push('.')
            + four_digits(self.year as int)
    }

    /// Month, day and year, with slashes between.
    pub open spec fn us_text(self) -> Seq<char> {
        two_digits(self.month as int).push('/') + two_digits(self.day as int).push('/')
            + four_digits(self.year as int)
    }
}

pub open spec fn two_digits(n: int) -> Seq<char> {
    seq![digit_char(n / 10 % 10), digit_char(n % 10)]
}

pub open spec fn four_digits(n: int) -> Seq<char> {
    two_digits(n / 100) + two_digits(n)
}

fn push_two_digits(out: &mut String, n: u16)
    requires
        n < 100,
    ensures
        final(out)@ == old(out)@ + two_digits(n as int),
{
    out.push((48u8 + (n / 10) as u8) as char);
    out.push((48u8 + (n % 10) as u8) as char);
    assert(out@ =~= old(out)@ + two_digits(n as int));
}

proof fn lemma_last_two_digits(n: int)
    requires
        0 <= n,
    ensures
        two_digits(n) == two_digits(n % 100),
{
    assert(n / 10 % 10 == n % 100 / 10 % 10 && n % 10 == n % 100 % 10) by (nonlinear_arith)
        requires
            0 <= n,
    ;
}

/// Two numbers and the year with a sign after each number.
fn date_in_order(first: u8, second: u8, year: u16, sep: char) -> (r: String)
    requires
        first < 100,
        second < 100,
        year <= 9999,
    ensures
        r@ == two_digits(first as int).push(sep) + two_digits(second as int).push(sep)
            + four_digits(year as int),
{
    let mut r = String::new();
    push_two_digits(&mut r, first as u16);
    r.push(sep);
    push_two_digits(&mut r, second as u16);
    r.push(sep);
    push_two_digits(&mut r, year / 100);
    push_two_digits(&mut r, year % 100);
    proof {
        lemma_last_two_digits(year as int);
    }
    assert(r@ =~= two_digits(first as int).push(sep) + two_digits(second as int).push(sep)
        + four_digits(year as int));
    r
}

/// A date as day, month and year, such as `24.12.2025`; or, in the other style,
/// as month, day and year, such as `12/24/2025`.
pub fn date_text(date: Date, us: bool) -> (r: String)
    requires
        date.wf(),
    ensures
        r@ == if us {
            date.us_text()
        } else {
            date.de_text()
        },
{
    if us {
        date_in_order(date.month, date.day, date.year, '/')
    } else {
        date_in_order(date.day, date.month, date.year, '.')
    }
}

} // verus!
