//! Calendar dates and the lenient `day/month/year` text form used as the
//! grouping key for route sets.
//!
//! A date string is split on `/`; each piece is read as a decimal number,
//! and a missing, empty, non-numeric or out-of-range piece degrades to `0`
//! instead of failing. `0` therefore acts as a sentinel for a bad component.

use crate::digits::{
    dec_digits, is_digit, lemma_dec_digits_value, lemma_dec_digits_well_formed,
    lemma_dec_value_nonneg, numeral_digits, numeral_value, parse_dec_u32, parses_dec,
    push_dec_u32,
};
use vstd::prelude::*;

verus! {

/// A calendar date, ordered by year, then month, then day (the derived
/// order follows the field order). Malformed text degrades to zero
/// components rather than failing.
#[derive(Hash, PartialEq, Eq, Structural, PartialOrd, Ord, Clone, Copy, Debug)]
pub struct Date {
    pub year: u32,
    pub month: u8,
    pub day: u8,
}

/// The pieces of `s` split on `'/'`: always at least one piece, and one
/// more piece than there are slashes.
pub open spec fn split_slash(s: Seq<char>) -> Seq<Seq<char>>
    decreases s.len(),
{
    if s.len() == 0 {
        seq![Seq::<char>::empty()]
    } else if s.last() == '/' {
        split_slash(s.drop_last()).push(Seq::<char>::empty())
    } else {
        let rest = split_slash(s.drop_last());
        rest.update(rest.len() - 1, rest.last().push(s.last()))
    }
}

pub proof fn lemma_split_slash_nonempty(s: Seq<char>)
    ensures
        split_slash(s).len() >= 1,
    decreases s.len(),
{
    if s.len() > 0 {
        lemma_split_slash_nonempty(s.drop_last());
    }
}

/// Piece `i` of a split, or the empty piece where fewer pieces exist.
pub open spec fn piece(ps: Seq<Seq<char>>, i: int) -> Seq<char> {
    if 0 <= i < ps.len() {
        ps[i]
    } else {
        Seq::<char>::empty()
    }
}

/// The lenient reading of one date component that must fit in a `u8`.
pub open spec fn component_u8(p: Seq<char>) -> u8 {
    if parses_dec(p) && numeral_value(p) <= 255 {
        numeral_value(p) as u8
    } else {
        0
    }
}

/// The lenient reading of one date component that must fit in a `u32`.
pub open spec fn component_u32(p: Seq<char>) -> u32 {
    if parses_dec(p) && numeral_value(p) <= u32::MAX {
        numeral_value(p) as u32
    } else {
        0
    }
}

/// The date denoted by a raw date string: piece 0 is the day, piece 1 the
/// month, piece 2 the year; bad or missing pieces read as `0`.
pub open spec fn date_of_chars(s: Seq<char>) -> Date {
    let ps = split_slash(s);
    Date {
        day: component_u8(piece(ps, 0)),
        month: component_u8(piece(ps, 1)),
        year: component_u32(piece(ps, 2)),
    }
}

/// The canonical `day/month/year` text of the given components.
pub open spec fn date_chars(day: u8, month: u8, year: u32) -> Seq<char> {
    dec_digits(day as int) + seq!['/'] + dec_digits(month as int) + seq!['/'] + dec_digits(
        year as int,
    )
}

pub proof fn lemma_split_slash_free(s: Seq<char>)
    requires
        forall|i: int| 0 <= i < s.len() ==> s[i] != '/',
    ensures
        split_slash(s) == seq![s],
    decreases s.len(),
{
    if s.len() == 0 {
        assert(s =~= Seq::<char>::empty());
        assert(split_slash(s) =~= seq![s]);
    } else {
        assert(forall|i: int| 0 <= i < s.drop_last().len() ==> #[trigger] s.drop_last()[i] != '/');
        lemma_split_slash_free(s.drop_last());
        assert(s.last() != '/');
        let rest = seq![s.drop_last()];
        assert(split_slash(s) == rest.update(0, s.drop_last().push(s.last())));
        assert(s.drop_last().push(s.last()) =~= s);
        assert(rest.update(0, s) =~= seq![s]);
    }
}

/// Splitting `a / rest` where `a` holds no slash yields `a` and then the
/// pieces of `rest`.
pub proof fn lemma_split_slash_concat(a: Seq<char>, rest: Seq<char>)
    requires
        forall|i: int| 0 <= i < a.len() ==> a[i] != '/',
    ensures
        split_slash(a + seq!['/'] + rest) == seq![a] + split_slash(rest),
    decreases rest.len(),
{
    let s = a + seq!['/'] + rest;
    if rest.len() == 0 {
        lemma_split_slash_free(a);
        assert(s.last() == '/');
        assert(s.drop_last() =~= a);
        assert(split_slash(s) == split_slash(a).push(Seq::<char>::empty()));
        assert(seq![a].push(Seq::<char>::empty()) =~= seq![a] + split_slash(rest));
    } else {
        lemma_split_slash_concat(a, rest.drop_last());
        assert(s.drop_last() =~= a + seq!['/'] + rest.drop_last());
        assert(s.last() == rest.last());
        let r0 = split_slash(rest.drop_last());
        lemma_split_slash_nonempty(rest.drop_last());
        if rest.last() == '/' {
            assert(split_slash(s) == (seq![a] + r0).push(Seq::<char>::empty()));
            assert(split_slash(rest) == r0.push(Seq::<char>::empty()));
            assert((seq![a] + r0).push(Seq::<char>::empty()) =~= seq![a] + r0.push(
                Seq::<char>::empty(),
            ));
        } else {
            let prev = seq![a] + r0;
            assert(split_slash(s) == prev.update(
                prev.len() - 1,
                prev.last().push(rest.last()),
            ));
            assert(prev.last() == r0.last());
            assert(split_slash(rest) == r0.update(r0.len() - 1, r0.last().push(rest.last())));
            assert(prev.update(prev.len() - 1, r0.last().push(rest.last())) =~= seq![a]
                + r0.update(r0.len() - 1, r0.last().push(rest.last())));
        }
    }
}

/// Round trip: parsing the canonical `day/month/year` text of any
/// components yields exactly those components.
pub proof fn lemma_format_then_parse(day: u8, month: u8, year: u32)
    ensures
        date_of_chars(date_chars(day, month, year)) == (Date { day, month, year }),
{
    let a = dec_digits(day as int);
    let b = dec_digits(month as int);
    let c = dec_digits(year as int);
    lemma_dec_digits_well_formed(day as int);
    lemma_dec_digits_well_formed(month as int);
    lemma_dec_digits_well_formed(year as int);
    lemma_dec_digits_value(day as int);
    lemma_dec_digits_value(month as int);
    lemma_dec_digits_value(year as int);
    assert(forall|i: int| 0 <= i < a.len() ==> #[trigger] a[i] != '/') by {
        assert(forall|i: int| 0 <= i < a.len() ==> is_digit(#[trigger] a[i]));
    }
    assert(forall|i: int| 0 <= i < b.len() ==> #[trigger] b[i] != '/') by {
        assert(forall|i: int| 0 <= i < b.len() ==> is_digit(#[trigger] b[i]));
    }
    assert(forall|i: int| 0 <= i < c.len() ==> #[trigger] c[i] != '/') by {
        assert(forall|i: int| 0 <= i < c.len() ==> is_digit(#[trigger] c[i]));
    }
    let full = date_chars(day, month, year);
    assert(full =~= a + seq!['/'] + (b + seq!['/'] + c));
    lemma_split_slash_concat(a, b + seq!['/'] + c);
    lemma_split_slash_concat(b, c);
    lemma_split_slash_free(c);
    let ps = split_slash(full);
    assert(ps =~= seq![a, b, c]);
    assert(piece(ps, 0) == a);
    assert(piece(ps, 1) == b);
    assert(piece(ps, 2) == c);
}

/// Round trip seen from a raw date string: re-formatting the components
/// read from it and parsing again yields the same components.
pub proof fn lemma_parse_then_format(s: Seq<char>)
    ensures
        date_of_chars(
            date_chars(date_of_chars(s).day, date_of_chars(s).month, date_of_chars(s).year),
        ) == date_of_chars(s),
{
    let d = date_of_chars(s);
    lemma_format_then_parse(d.day, d.month, d.year);
}

fn split_slashes<'a>(s: &'a str) -> (pieces: Vec<&'a str>)
    ensures
        pieces@.len() == split_slash(s@).len(),
        forall|j: int| 0 <= j < pieces@.len() ==> #[trigger] pieces@[j]@ == split_slash(s@)[j],
{
    let n = s.unicode_len();
    let mut pieces: Vec<&'a str> = Vec::new();
    let mut start: usize = 0;
    let mut i: usize = 0;
    proof {
        assert(s@.take(0) =~= Seq::<char>::empty());
        assert(s@.subrange(0, 0) =~= Seq::<char>::empty());
    }
    while i < n
        invariant
            0 <= start <= i <= n,
            n == s@.len(),
            pieces@.len() + 1 == split_slash(s@.take(i as int)).len(),
            forall|j: int|
                0 <= j < pieces@.len() ==> #[trigger] pieces@[j]@ == split_slash(
                    s@.take(i as int),
                )[j],
            split_slash(s@.take(i as int)).last() == s@.subrange(start as int, i as int),
        decreases n - i,
    {
        let ghost prev = split_slash(s@.take(i as int));
        proof {
            assert(s@.take(i as int + 1).drop_last() =~= s@.take(i as int));
            assert(s@.take(i as int + 1).last() == s@[i as int]);
        }
        let c = s.get_char(i);
        if c == '/' {
            let p = s.substring_char(start, i);
            pieces.push(p);
            proof {
                assert(split_slash(s@.take(i as int + 1)) =~= prev.push(Seq::<char>::empty()));
                assert(s@.subrange(i as int + 1, i as int + 1) =~= Seq::<char>::empty());
            }
            start = i + 1;
        } else {
            proof {
                let upd = prev.update(prev.len() - 1, prev.last().push(s@[i as int]));
                assert(split_slash(s@.take(i as int + 1)) == upd);
                assert(upd.len() == prev.len());
                assert(upd.last() == prev.last().push(s@[i as int]));
                assert(s@.subrange(start as int, i as int).push(s@[i as int]) =~= s@.subrange(
                    start as int,
                    i as int + 1,
                ));
                assert(forall|j: int| 0 <= j < prev.len() - 1 ==> upd[j] == prev[j]);
            }
        }
        i += 1;
    }
    proof {
        assert(s@.take(n as int) =~= s@);
    }
    let p = s.substring_char(start, n);
    pieces.push(p);
    pieces
}

fn read_component_u8(p: &str) -> (r: (u8, bool))
    ensures
        r.0 == component_u8(p@),
        r.1 == (parses_dec(p@) && numeral_value(p@) <= 255),
{
    match parse_dec_u32(p) {
        Some(v) => {
            proof {
                lemma_dec_value_nonneg(numeral_digits(p@));
                assert(v as int == numeral_value(p@));
            }
            if v <= 255 {
                (v as u8, true)
            } else {
                (0, false)
            }
        },
        None => (0, false),
    }
}

fn read_component_u32(p: &str) -> (r: (u32, bool))
    ensures
        r.0 == component_u32(p@),
        r.1 == (parses_dec(p@) && numeral_value(p@) <= u32::MAX),
{
    match parse_dec_u32(p) {
        Some(v) => (v, true),
        None => (0, false),
    }
}

/// A date string that needs no leniency: exactly three pieces, each a
/// well-formed numeral that fits its component.
pub open spec fn date_chars_valid(s: Seq<char>) -> bool {
    let ps = split_slash(s);
    &&& ps.len() == 3
    &&& parses_dec(ps[0]) && numeral_value(ps[0]) <= 255
    &&& parses_dec(ps[1]) && numeral_value(ps[1]) <= 255
    &&& parses_dec(ps[2]) && numeral_value(ps[2]) <= u32::MAX
}

/// Reads a raw date string leniently and says whether leniency was
/// needed: the flag distinguishes a genuine `0` component from one that
/// fell back to the `0` sentinel. This never fails.
pub fn parse_date(s: &str) -> (r: (Date, bool))
    ensures
        r.0 == date_of_chars(s@),
        r.1 == date_chars_valid(s@),
{
    proof {
        lemma_split_slash_nonempty(s@);
        assert(!parses_dec(Seq::<char>::empty()));
    }
    let pieces = split_slashes(s);
    let (day, day_ok) = read_component_u8(pieces[0]);
    let (month, month_ok) = if pieces.len() > 1 {
        read_component_u8(pieces[1])
    } else {
        (0u8, false)
    };
    let (year, year_ok) = if pieces.len() > 2 {
        read_component_u32(pieces[2])
    } else {
        (0u32, false)
    };
    let valid = pieces.len() == 3 && day_ok && month_ok && year_ok;
    (Date { day, month, year }, valid)
}

/// Reads a raw date string leniently: components that are missing, empty,
/// non-numeric or out of range come back as `0`; this never fails.
pub fn date_of_str(s: &str) -> (d: Date)
    ensures
        d == date_of_chars(s@),
{
    let (d, _valid) = parse_date(s);
    d
}

impl Date {
    pub fn new(day: u8, month: u8, year: u32) -> (d: Self)
        ensures
            d == (Date { day, month, year }),
    {
        Date { day, month, year }
    }
}

impl From<String> for Date {
    /// The lenient conversion from a raw date string.
    fn from(value: String) -> (d: Date) {
        date_of_str(value.as_str())
    }
}

impl vstd::std_specs::convert::FromSpecImpl<String> for Date {
    open spec fn obeys_from_spec() -> bool {
        true
    }

    open spec fn from_spec(value: String) -> Date {
        date_of_chars(value@)
    }
}

/// Writes date components back into the canonical `day/month/year` text.
pub fn format_date(day: u8, month: u8, year: u32) -> (r: String)
    ensures
        r@ == date_chars(day, month, year),
{
    let mut out = String::new();
    push_dec_u32(day as u32, &mut out);
    proof {
        reveal_strlit("/");
        assert("/"@ =~= seq!['/']);
    }
    out.append("/");
    push_dec_u32(month as u32, &mut out);
    out.append("/");
    push_dec_u32(year, &mut out);
    proof {
        assert(out@ =~= date_chars(day, month, year));
    }
    out
}

} // verus!
