//! Instants, their calendar month, and the folders named after it.
use vstd::prelude::*;
use chrono::Datelike;
use crate::text::{decimal, decimal_of, push_char};

verus! {

/// An instant as seconds and nanoseconds since 1970-01-01 00:00:00 UTC.
#[derive(Debug, Clone, Copy, PartialEq, Eq, Structural)]
pub struct Timestamp {
    pub secs: i64,
    pub nanos: u32,
}

/// The UTC year and month of an instant, where the calendar reaches it.
pub uninterp spec fn utc_year_month_of(secs: i64, nanos: u32) -> Option<(i32, u32)>;

/// Relies on chrono's `DateTime::from_timestamp` (nothing for an instant out
/// of its range) and on `Datelike::year` and `Datelike::month` (1 to 12).
#[verifier::external_body]
fn utc_year_month(secs: i64, nanos: u32) -> (r: Option<(i32, u32)>)
    ensures
        r == utc_year_month_of(secs, nanos),
        r matches Some(ym) ==> 1 <= ym.1 <= 12,
{
    match chrono::DateTime::from_timestamp(secs, nanos) {
        Some(d) => Some((d.year(), d.month())),
        None => None,
    }
}

/// The UTC year and month of `t`, where the calendar reaches it.
pub fn year_month(t: Timestamp) -> (r: Option<(i32, u32)>)
    ensures
        r == utc_year_month_of(t.secs, t.nanos),
        r matches Some(ym) ==> 1 <= ym.1 <= 12,
{
    utc_year_month(t.secs, t.nanos)
}

/// `d` with zeros in front up to `w` characters.
pub open spec fn zero_pad(d: Seq<char>, w: nat) -> Seq<char> {
    if d.len() >= w {
        d
    } else {
        Seq::new((w - d.len()) as nat, |i: int| '0') + d
    }
}

/// A year in four digits at least; outside 0 to 9999 with its sign.
pub open spec fn year_label(y: int) -> Seq<char> {
    if 0 <= y <= 9999 {
        zero_pad(decimal_of(y as nat), 4)
    } else if y > 9999 {
        seq!['+'] + zero_pad(decimal_of(y as nat), 4)
    } else {
        seq!['-'] + zero_pad(decimal_of((-y) as nat), 4)
    }
}

/// A month as `year-MM`.
pub open spec fn month_label(y: int, m: int) -> Seq<char> {
    year_label(y) + seq!['-'] + zero_pad(decimal_of(m as nat), 2)
}

/// The folder of a month: the year, then the month inside it.
pub open spec fn date_folder(y: int, m: int) -> Seq<char> {
    year_label(y) + seq!['/'] + month_label(y, m)
}

fn push_padded(s: &mut String, n: u64, w: usize)
    requires
        w <= 4,
    ensures
        final(s)@ == old(s)@ + zero_pad(decimal_of(n as nat), w as nat),
{
    let d = decimal(n);
    let len = d.as_str().unicode_len();
    let mut k: usize = len;
    while k < w
        invariant
            len == decimal_of(n as nat).len(),
            len <= k,
            k == len || k <= w,
            s@ == old(s)@ + Seq::new((k - len) as nat, |i: int| '0'),
        decreases w - k,
    {
        push_char(s, '0');
        assert(s@ =~= old(s)@ + Seq::new((k + 1 - len) as nat, |i: int| '0'));
        k += 1;
    }
    let ghost zeros = s@;
    s.append(d.as_str());
    if len >= w {
        assert(k == len);
        assert(s@ =~= old(s)@ + zero_pad(decimal_of(n as nat), w as nat));
    } else {
        assert(k == w);
        assert(s@ =~= old(s)@ + zero_pad(decimal_of(n as nat), w as nat));
    }
}

fn push_year(s: &mut String, y: i32)
    ensures
        final(s)@ == old(s)@ + year_label(y as int),
{
    if y < 0 {
        push_char(s, '-');
        let a: u64 = (-(y as i64)) as u64;
        push_padded(s, a, 4);
        assert(s@ =~= old(s)@ + year_label(y as int));
    } else {
        if y > 9999 {
            push_char(s, '+');
        }
        push_padded(s, y as u64, 4);
        assert(s@ =~= old(s)@ + year_label(y as int));
    }
}

/// The folder name of the year: four digits at least, as chrono's `%Y` writes it.
pub fn year_folder_name(y: i32) -> (r: String)
    ensures
        r@ == year_label(y as int),
{
    let mut s = String::new();
    push_year(&mut s, y);
    s
}

/// The folder name of the month: `YYYY-MM`, as chrono's `%Y-%m` writes it.
pub fn month_folder_name(y: i32, m: u32) -> (r: String)
    ensures
        r@ == month_label(y as int, m as int),
{
    let mut s = String::new();
    push_year(&mut s, y);
    push_char(&mut s, '-');
    push_padded(&mut s, m as u64, 2);
    assert(s@ =~= month_label(y as int, m as int));
    s
}

/// The folder of the month of `t` relative to the organised directory:
/// `YYYY/YYYY-MM`; nothing where the calendar does not reach `t`.
pub fn date_folder_for(t: Timestamp) -> (r: Option<String>)
    ensures
        match utc_year_month_of(t.secs, t.nanos) {
            Some(ym) => r matches Some(s) && s@ == date_folder(ym.0 as int, ym.1 as int),
            None => r is None,
        },
{
    match year_month(t) {
        Some((y, m)) => {
            let mut s = year_folder_name(y);
            push_char(&mut s, '/');
            let mf = month_folder_name(y, m);
            s.append(mf.as_str());
            Some(s)
        },
        None => None,
    }
}

} // verus!
