//! Rendering of durations, months, weekdays and times of day as text.

use vstd::prelude::*;

use crate::summary::MonthId;
use crate::dates::SECS_PER_DAY;

verus! {

/// The decimal digit `d` as text.
pub open spec fn digit_text(d: int) -> Seq<char> {
    if d == 0 {
        "0"@
    } else if d == 1 {
        "1"@
    } else if d == 2 {
        "2"@
    } else if d == 3 {
        "3"@
    } else if d == 4 {
        "4"@
    } else if d == 5 {
        "5"@
    } else if d == 6 {
        "6"@
    } else if d == 7 {
        "7"@
    } else if d == 8 {
        "8"@
    } else {
        "9"@
    }
}

/// The decimal rendering of a non-negative number.
pub open spec fn dec_text(n: int) -> Seq<char>
    decreases n,
{
    if n < 10 {
        digit_text(n)
    } else {
        dec_text(n / 10) + digit_text(n % 10)
    }
}

/// The decimal rendering, padded with a zero to at least two digits.
pub open spec fn pad2_text(n: int) -> Seq<char> {
    if 0 <= n < 10 {
        "0"@ + dec_text(n)
    } else {
        dec_text(n)
    }
}

/// A duration in seconds rendered as `HH:MM:SS`, each part zero-padded to
/// two digits, with the hour part growing beyond two digits as needed.
pub open spec fn duration_text(secs: int) -> Seq<char> {
    pad2_text(secs / 3600) + ":"@ + pad2_text((secs / 60) % 60) + ":"@ + pad2_text(secs % 60)
}

/// `duration_text`, marked as not yet final when the period it covers has
/// not ended.
pub open spec fn duration_uncertain_text(secs: int, completed: bool) -> Seq<char> {
    if completed {
        duration_text(secs)
    } else {
        duration_text(secs) + " (incompleto)"@
    }
}

/// The name of a zero-based month index.
pub open spec fn month_name_text(month: int) -> Seq<char> {
    if month == 0 {
        "Enero"@
    } else if month == 1 {
        "Febrero"@
    } else if month == 2 {
        "Marzo"@
    } else if month == 3 {
        "Abril"@
    } else if month == 4 {
        "Mayo"@
    } else if month == 5 {
        "Junio"@
    } else if month == 6 {
        "Julio"@
    } else if month == 7 {
        "Agosto"@
    } else if month == 8 {
        "Septiembre"@
    } else if month == 9 {
        "Octubre"@
    } else if month == 10 {
        "Noviembre"@
    } else {
        "Diciembre"@
    }
}

/// A month rendered as its name followed by the year.
pub open spec fn month_text(year: int, month: int) -> Seq<char> {
    month_name_text(month) + " "@ + dec_text(year)
}

/// The name of a weekday, Monday = 0.
pub open spec fn weekday_text(w: int) -> Seq<char> {
    if w == 0 {
        "Lunes"@
    } else if w == 1 {
        "Martes"@
    } else if w == 2 {
        "Miércoles"@
    } else if w == 3 {
        "Jueves"@
    } else if w == 4 {
        "Viernes"@
    } else if w == 5 {
        "Sabado"@
    } else {
        "Domingo"@
    }
}

/// A time of day rendered as `HH:MM`.
pub open spec fn hours_mins_text(tod: int) -> Seq<char> {
    pad2_text(tod / 3600) + ":"@ + pad2_text((tod / 60) % 60)
}

fn digit_str(d: u128) -> (r: &'static str)
    requires
        d < 10,
    ensures
        r@ == digit_text(d as int),
{
    if d == 0 {
        "0"
    } else if d == 1 {
        "1"
    } else if d == 2 {
        "2"
    } else if d == 3 {
        "3"
    } else if d == 4 {
        "4"
    } else if d == 5 {
        "5"
    } else if d == 6 {
        "6"
    } else if d == 7 {
        "7"
    } else if d == 8 {
        "8"
    } else {
        "9"
    }
}

fn push_dec(n: u128, out: &mut String)
    ensures
        final(out)@ == old(out)@ + dec_text(n as int),
    decreases n,
{
    if n < 10 {
        out.append(digit_str(n));
    } else {
        push_dec(n / 10, out);
        out.append(digit_str(n % 10));
        proof {
            assert(old(out)@ + dec_text((n / 10) as int) + digit_text((n % 10) as int) =~= old(
                out,
            )@ + (dec_text((n / 10) as int) + digit_text((n % 10) as int)));
        }
    }
}

fn push_pad2(n: u128, out: &mut String)
    ensures
        final(out)@ == old(out)@ + pad2_text(n as int),
{
    if n < 10 {
        out.append("0");
        push_dec(n, out);
        proof {
            assert(old(out)@ + "0"@ + dec_text(n as int) =~= old(out)@ + ("0"@ + dec_text(
                n as int,
            )));
        }
    } else {
        push_dec(n, out);
    }
}

/// A duration in whole seconds as `HH:MM:SS` text.
pub fn fmt_duration(secs: u128) -> (r: String)
    ensures
        r@ == duration_text(secs as int),
{
    let mut out = String::new();
    push_pad2(secs / 3600, &mut out);
    out.append(":");
    push_pad2((secs / 60) % 60, &mut out);
    out.append(":");
    push_pad2(secs % 60, &mut out);
    proof {
        assert(out@ =~= duration_text(secs as int));
    }
    out
}

/// A duration as `HH:MM:SS`, marked `(incompleto)` when the covered period
/// has not ended yet.
pub fn fmt_duration_uncertain(secs: u128, completed: bool) -> (r: String)
    ensures
        r@ == duration_uncertain_text(secs as int, completed),
{
    let mut out = fmt_duration(secs);
    if !completed {
        out.append(" (incompleto)");
    }
    out
}

/// A month as its name followed by the year, e.g. `Enero 2024`.
pub fn fmt_month(month: MonthId) -> (r: String)
    requires
        month.spec_month() < 12,
    ensures
        r@ == month_text(month.spec_year() as int, month.spec_month() as int),
{
    let m = month.month();
    let mut out = String::new();
    let name: &'static str = if m == 0 {
        "Enero"
    } else if m == 1 {
        "Febrero"
    } else if m == 2 {
        "Marzo"
    } else if m == 3 {
        "Abril"
    } else if m == 4 {
        "Mayo"
    } else if m == 5 {
        "Junio"
    } else if m == 6 {
        "Julio"
    } else if m == 7 {
        "Agosto"
    } else if m == 8 {
        "Septiembre"
    } else if m == 9 {
        "Octubre"
    } else if m == 10 {
        "Noviembre"
    } else {
        "Diciembre"
    };
    out.append(name);
    out.append(" ");
    push_dec(month.year() as u128, &mut out);
    proof {
        assert(out@ =~= month_text(month.spec_year() as int, month.spec_month() as int));
    }
    out
}

/// The Spanish name of a weekday, Monday = 0.
pub fn fmt_weekday(w: i64) -> (r: &'static str)
    requires
        0 <= w < 7,
    ensures
        r@ == weekday_text(w as int),
{
    if w == 0 {
        "Lunes"
    } else if w == 1 {
        "Martes"
    } else if w == 2 {
        "Miércoles"
    } else if w == 3 {
        "Jueves"
    } else if w == 4 {
        "Viernes"
    } else if w == 5 {
        "Sabado"
    } else {
        "Domingo"
    }
}

/// A time of day (seconds since midnight) as `HH:MM` text.
pub fn fmt_hours_mins(tod: i64) -> (r: String)
    requires
        0 <= tod < SECS_PER_DAY,
    ensures
        r@ == hours_mins_text(tod as int),
{
    let t = tod as u128;
    let mut out = String::new();
    push_pad2(t / 3600, &mut out);
    out.append(":");
    push_pad2((t / 60) % 60, &mut out);
    proof {
        assert(out@ =~= hours_mins_text(tod as int));
    }
    out
}

} // verus!
