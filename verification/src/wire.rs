//! The text of the IMAP commands that the cleanup sends: the search criteria,
//! the sequence set of a range, and the fixed arguments of fetch and store.

use crate::date::{date_text, CutoffDate};
use crate::ranges::span;
use std::ops::RangeInclusive;
use vstd::prelude::*;

verus! {

/// What a fetch asks of each message: its internal date and its flags.
pub const FETCH_ITEMS: &'static str = "(INTERNALDATE FLAGS)";

/// What a store does to each message: it sets the `\Deleted` flag and asks
/// for no answer.
pub const STORE_DELETED: &'static str = "+FLAGS.SILENT (\\Deleted)";

/// The decimal digit for `d`, which is 0 to 9.
pub open spec fn digit_char(d: int) -> char {
    if d == 0 {
        '0'
    } else if d == 1 {
        '1'
    } else if d == 2 {
        '2'
    } else if d == 3 {
        '3'
    } else if d == 4 {
        '4'
    } else if d == 5 {
        '5'
    } else if d == 6 {
        '6'
    } else if d == 7 {
        '7'
    } else if d == 8 {
        '8'
    } else {
        '9'
    }
}

/// `n` in decimal digits, without leading zeros.
pub open spec fn decimal(n: nat) -> Seq<char>
    decreases n,
{
    if n < 10 {
        seq![digit_char(n as int)]
    } else {
        decimal(n / 10).push(digit_char((n % 10) as int))
    }
}

/// The sequence set that names the identifiers from `pair.0` to `pair.1`:
/// the two numbers in decimal with a colon between them.
pub open spec fn sequence_set_text(pair: (int, int)) -> Seq<char> {
    decimal(pair.0 as nat) + seq![':'] + decimal(pair.1 as nat)
}

/// The search criteria for messages dated before the day written as `date`
/// that do not carry the `\Flagged` flag.
pub open spec fn criteria_text(date: Seq<char>) -> Seq<char> {
    seq!['B', 'E', 'F', 'O', 'R', 'E', ' '] + date + seq![
        ' ',
        'N',
        'O',
        'T',
        ' ',
        'F',
        'L',
        'A',
        'G',
        'G',
        'E',
        'D',
    ]
}

/// `RangeInclusive::start` of std: the lower end of the range.
pub assume_specification<Idx>[ RangeInclusive::<Idx>::start ](range: &RangeInclusive<Idx>) -> (start:
    &Idx)
    ensures
        *start == range@.start,
;

/// `RangeInclusive::end` of std: the upper end of the range.
pub assume_specification<Idx>[ RangeInclusive::<Idx>::end ](range: &RangeInclusive<Idx>) -> (end:
    &Idx)
    ensures
        *end == range@.end,
;

fn digit_text(d: u32) -> (text: &'static str)
    requires
        d < 10,
    ensures
        text@ == seq![digit_char(d as int)],
{
    proof {
        reveal_strlit("0");
        reveal_strlit("1");
        reveal_strlit("2");
        reveal_strlit("3");
        reveal_strlit("4");
        reveal_strlit("5");
        reveal_strlit("6");
        reveal_strlit("7");
        reveal_strlit("8");
        reveal_strlit("9");
    }
    let text: &'static str = if d == 0 {
        "0"
    } else if d == 1 {
        "1"
    } else if d == 2 {
        "2"
    } else if d == 3 {
        "3"
    } else if d == 4 {
        "4"
    } else if d == 5 {
        "5"
    } else if d == 6 {
        "6"
    } else if d == 7 {
        "7"
    } else if d == 8 {
        "8"
    } else {
        "9"
    };
    assert(text@ =~= seq![digit_char(d as int)]);
    text
}

fn append_decimal(out: &mut String, n: u32)
    ensures
        final(out)@ == old(out)@ + decimal(n as nat),
    decreases n,
{
    if n >= 10 {
        append_decimal(out, n / 10);
    }
    out.append(digit_text(n % 10));
    assert(out@ =~= old(out)@ + decimal(n as nat));
}

/// The sequence set that names the identifiers of `range`, as fetch and store
/// take it: `10:12`.
pub fn sequence_set(range: &RangeInclusive<u32>) -> (text: String)
    ensures
        text@ == sequence_set_text(span(*range)),
{
    let mut text: String = String::new();
    append_decimal(&mut text, *range.start());
    proof {
        reveal_strlit(":");
    }
    text.append(":");
    append_decimal(&mut text, *range.end());
    assert(text@ =~= sequence_set_text(span(*range)));
    text
}

/// The search criteria for messages dated before the day written as `date`
/// that do not carry the `\Flagged` flag: `BEFORE 5-Jan-2020 NOT FLAGGED`.
pub fn search_criteria(date: &str) -> (text: String)
    ensures
        text@ == criteria_text(date@),
{
    proof {
        reveal_strlit("BEFORE ");
        reveal_strlit(" NOT FLAGGED");
    }
    let mut text: String = String::from_str("BEFORE ");
    text.append(date);
    text.append(" NOT FLAGGED");
    assert(text@ =~= criteria_text(date@));
    text
}

/// The search criteria for messages dated before `before` that do not carry
/// the `\Flagged` flag.
pub fn search_query(before: &CutoffDate) -> (text: String)
    ensures
        text@ == criteria_text(
            date_text(before.year_of() as int, before.month_of() as int, before.day_of() as int),
        ),
{
    let date: String = before.imap_text();
    search_criteria(date.as_str())
}

} // verus!
