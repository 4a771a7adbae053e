//! Parsing of the renderer's textual configuration: scalar pairs such as
//! `1000x750`, scalar triads, and `R,G,B` byte triples.
use crate::color::Color;
use std::str::FromStr;
use vstd::prelude::*;

verus! {

/// The pieces of `s` between occurrences of `sep`, in order: the model of
/// splitting a string by a separator character. A string without the
/// separator is one piece; every separator adds one piece, so an empty
/// string or a string of bare separators yields empty pieces.
pub open spec fn split_spec(s: Seq<char>, sep: char) -> Seq<Seq<char>>
    decreases s.len(),
{
    if s.len() == 0 {
        seq![Seq::<char>::empty()]
    } else if s[0] == sep {
        seq![Seq::<char>::empty()] + split_spec(s.skip(1), sep)
    } else {
        let rest = split_spec(s.skip(1), sep);
        seq![seq![s[0]] + rest[0]] + rest.skip(1)
    }
}

/// Splitting yields at least one piece.
pub proof fn lemma_split_spec_len(s: Seq<char>, sep: char)
    ensures
        split_spec(s, sep).len() >= 1,
    decreases s.len(),
{
    if s.len() == 0 {
    } else {
        lemma_split_spec_len(s.skip(1), sep);
    }
}

/// A string without the separator is a single piece: itself.
pub proof fn lemma_split_spec_no_sep(s: Seq<char>, sep: char)
    requires
        !s.contains(sep),
    ensures
        split_spec(s, sep) == seq![s],
    decreases s.len(),
{
    if s.len() == 0 {
        assert(s =~= Seq::<char>::empty());
        assert(split_spec(s, sep) =~= seq![s]);
    } else {
        assert(s[0] != sep);
        assert(!s.skip(1).contains(sep)) by {
            if s.skip(1).contains(sep) {
                let i = choose|i: int| 0 <= i < s.skip(1).len() && s.skip(1)[i] == sep;
                assert(s[i + 1] == sep);
            }
        }
        lemma_split_spec_no_sep(s.skip(1), sep);
        assert(seq![s[0]] + s.skip(1) =~= s);
        assert(split_spec(s, sep) =~= seq![s]);
    }
}

/// Splitting a string that starts with a separator-free piece, then the
/// separator, yields that piece followed by the split of the remainder.
pub proof fn lemma_split_spec_step(left: Seq<char>, rest: Seq<char>, sep: char)
    requires
        !left.contains(sep),
    ensures
        split_spec(left + seq![sep] + rest, sep) == seq![left] + split_spec(rest, sep),
    decreases left.len(),
{
    let s = left + seq![sep] + rest;
    if left.len() == 0 {
        assert(left =~= Seq::<char>::empty());
        assert(s[0] == sep);
        assert(s.skip(1) =~= rest);
        assert(split_spec(s, sep) =~= seq![left] + split_spec(rest, sep));
    } else {
        assert(left[0] != sep);
        assert(s[0] == left[0]);
        assert(!left.skip(1).contains(sep)) by {
            if left.skip(1).contains(sep) {
                let i = choose|i: int|
                    0 <= i < left.skip(1).len() && left.skip(1)[i] == sep;
                assert(left[i + 1] == sep);
            }
        }
        lemma_split_spec_step(left.skip(1), rest, sep);
        assert(s.skip(1) =~= left.skip(1) + seq![sep] + rest);
        let tail = split_spec(s.skip(1), sep);
        assert(tail == seq![left.skip(1)] + split_spec(rest, sep));
        assert(seq![s[0]] + tail[0] =~= left);
        assert(tail.skip(1) =~= split_spec(rest, sep));
        assert(split_spec(s, sep) =~= seq![left] + split_spec(rest, sep));
    }
}

/// A string that contains the separator splits into at least two pieces.
pub proof fn lemma_split_spec_contains(s: Seq<char>, sep: char)
    requires
        s.contains(sep),
    ensures
        split_spec(s, sep).len() >= 2,
    decreases s.len(),
{
    assert(s.len() > 0);
    if s[0] == sep {
        lemma_split_spec_len(s.skip(1), sep);
    } else {
        assert(s.skip(1).contains(sep)) by {
            let i = choose|i: int| 0 <= i < s.len() && s[i] == sep;
            assert(s.skip(1)[i - 1] == sep);
        }
        lemma_split_spec_contains(s.skip(1), sep);
    }
}

/// Splits a string at the first occurrence of `sep`, dropping the separator.
///
/// Relies on `str::split_once`: it returns the text before and after the
/// first occurrence of the pattern, and nothing when the pattern is absent.
#[verifier::external_body]
fn split_first_at<'a>(s: &'a str, sep: char) -> (r: Option<(&'a str, &'a str)>)
    ensures
        match r {
            Option::None => !s@.contains(sep),
            Option::Some((left, rest)) => s@ == left@ + seq![sep] + rest@
                && !left@.contains(sep),
        },
{
    s.split_once(sep)
}

/// Relies on `str::contains` with a `char` pattern: true exactly when the
/// character occurs in the string.
#[verifier::external_body]
fn str_contains_char(s: &str, sep: char) -> (r: bool)
    ensures
        r == s@.contains(sep),
{
    s.contains(sep)
}

/// Parses one scalar of the caller's `FromStr` type.
///
/// Relies on `T::from_str`; which strings the type accepts is that type's
/// own business, so nothing is claimed of the outcome.
#[verifier::external_body]
fn parse_scalar<T: FromStr>(s: &str) -> (r: Option<T>) {
    T::from_str(s).ok()
}

/// Splits `s` into exactly three pieces, or reports that the piece count
/// differs from three.
fn split3<'a>(s: &'a str, sep: char) -> (r: Option<(&'a str, &'a str, &'a str)>)
    ensures
        match r {
            Option::None => split_spec(s@, sep).len() != 3,
            Option::Some((a, b, c)) => split_spec(s@, sep) == seq![a@, b@, c@],
        },
{
    match split_first_at(s, sep) {
        Option::None => {
            proof {
                lemma_split_spec_no_sep(s@, sep);
            }
            Option::None
        },
        Option::Some((p1, r1)) => {
            proof {
                lemma_split_spec_step(p1@, r1@, sep);
            }
            match split_first_at(r1, sep) {
                Option::None => {
                    proof {
                        lemma_split_spec_no_sep(r1@, sep);
                    }
                    Option::None
                },
                Option::Some((p2, p3)) => {
                    proof {
                        lemma_split_spec_step(p2@, p3@, sep);
                    }
                    if str_contains_char(p3, sep) {
                        proof {
                            lemma_split_spec_contains(p3@, sep);
                        }
                        Option::None
                    } else {
                        proof {
                            lemma_split_spec_no_sep(p3@, sep);
                            assert(split_spec(s@, sep) =~= seq![p1@, p2@, p3@]);
                        }
                        Option::Some((p1, p2, p3))
                    }
                },
            }
        },
    }
}

/// Parses `s` as a coordinate pair such as `400x600` or `1.0,0.5`: the text
/// before the first `separator` and the text after it, both read with
/// `T::from_str`. Returns nothing when the separator is absent or either
/// side fails to parse. What the scalar type accepts is its own business,
/// so the contract fixes the separator structure only; `parse_bounds` is
/// the fully specified instance for the raster's pixel counts.
pub fn parse_pair<T: FromStr>(s: &str, separator: char) -> (r: Option<(T, T)>)
    ensures
        !s@.contains(separator) ==> r is None,
        r is Some ==> s@.contains(separator),
{
    match split_first_at(s, separator) {
        Option::None => Option::None,
        Option::Some((left, rest)) => {
            proof {
                assert(s@[left@.len() as int] == separator);
            }
            match (parse_scalar::<T>(left), parse_scalar::<T>(rest)) {
                (Option::Some(l), Option::Some(r)) => Option::Some((l, r)),
                _ => Option::None,
            }
        },
    }
}

/// Parses `s` as three `separator`-delimited scalars. Returns nothing when
/// the separator count differs from two or any piece fails to parse. As
/// with `parse_pair` the contract fixes the piece structure only;
/// `parse_rgb` is the fully specified instance for color triples.
pub fn parse_triad<T: FromStr>(s: &str, separator: char) -> (r: Option<(T, T, T)>)
    ensures
        split_spec(s@, separator).len() != 3 ==> r is None,
        r is Some ==> split_spec(s@, separator).len() == 3,
{
    match split3(s, separator) {
        Option::None => Option::None,
        Option::Some((a, b, c)) => {
            match (parse_scalar::<T>(a), parse_scalar::<T>(b), parse_scalar::<T>(c)) {
                (Option::Some(v1), Option::Some(v2), Option::Some(v3)) => Option::Some(
                    (v1, v2, v3),
                ),
                _ => Option::None,
            }
        },
    }
}

/// The text before and after the first occurrence of `sep`, when it
/// occurs: the model of splitting a string once. The piece before the
/// separator never contains it; the piece after it may.
pub open spec fn split_first_spec(s: Seq<char>, sep: char) -> Option<(Seq<char>, Seq<char>)>
    decreases s.len(),
{
    if s.len() == 0 {
        Option::None
    } else if s[0] == sep {
        Option::Some((Seq::<char>::empty(), s.skip(1)))
    } else {
        match split_first_spec(s.skip(1), sep) {
            Option::None => Option::None,
            Option::Some((left, rest)) => Option::Some((seq![s[0]] + left, rest)),
        }
    }
}

/// A string without the separator does not split.
proof fn lemma_split_first_spec_none(s: Seq<char>, sep: char)
    requires
        !s.contains(sep),
    ensures
        split_first_spec(s, sep) is None,
    decreases s.len(),
{
    if s.len() == 0 {
    } else {
        assert(s[0] != sep);
        assert(!s.skip(1).contains(sep)) by {
            if s.skip(1).contains(sep) {
                let i = choose|i: int| 0 <= i < s.skip(1).len() && s.skip(1)[i] == sep;
                assert(s[i + 1] == sep);
            }
        }
        lemma_split_first_spec_none(s.skip(1), sep);
    }
}

/// A string made of a separator-free piece, the separator, and a remainder
/// splits into exactly those two pieces.
proof fn lemma_split_first_spec_of(left: Seq<char>, rest: Seq<char>, sep: char)
    requires
        !left.contains(sep),
    ensures
        split_first_spec(left + seq![sep] + rest, sep) == Option::Some((left, rest)),
    decreases left.len(),
{
    let s = left + seq![sep] + rest;
    if left.len() == 0 {
        assert(left =~= Seq::<char>::empty());
        assert(s[0] == sep);
        assert(s.skip(1) =~= rest);
    } else {
        assert(left[0] != sep);
        assert(s[0] == left[0]);
        assert(!left.skip(1).contains(sep)) by {
            if left.skip(1).contains(sep) {
                let i = choose|i: int|
                    0 <= i < left.skip(1).len() && left.skip(1)[i] == sep;
                assert(left[i + 1] == sep);
            }
        }
        assert(s.skip(1) =~= left.skip(1) + seq![sep] + rest);
        lemma_split_first_spec_of(left.skip(1), rest, sep);
        assert(seq![s[0]] + left.skip(1) =~= left);
    }
}

/// Whether every character of `s` is a decimal digit.
pub open spec fn is_digits(s: Seq<char>) -> bool {
    forall|i: int| 0 <= i < s.len() ==> '0' <= #[trigger] s[i] <= '9'
}

/// The number that the digit string `s` denotes in decimal.
pub open spec fn dec_value(s: Seq<char>) -> int
    decreases s.len(),
{
    if s.len() == 0 {
        0
    } else {
        dec_value(s.drop_last()) * 10 + (s.last() as u32 - '0' as u32)
    }
}

/// What `u8::from_str` accepts: an optional leading `+`, then at least one
/// decimal digit, denoting a value of at most 255.
pub open spec fn u8_from_str_spec(s: Seq<char>) -> Option<u8> {
    let digits = if s.len() > 0 && s[0] == '+' {
        s.skip(1)
    } else {
        s
    };
    if digits.len() == 0 || !is_digits(digits) {
        Option::None
    } else if dec_value(digits) > 255 {
        Option::None
    } else {
        Option::Some(dec_value(digits) as u8)
    }
}

/// A digit string denotes a nonnegative number.
proof fn lemma_dec_value_nonneg(s: Seq<char>)
    requires
        is_digits(s),
    ensures
        dec_value(s) >= 0,
    decreases s.len(),
{
    if s.len() > 0 {
        assert(is_digits(s.drop_last())) by {
            assert(forall|i: int|
                0 <= i < s.drop_last().len() ==> s.drop_last()[i] == #[trigger] s[i]);
        }
        lemma_dec_value_nonneg(s.drop_last());
    }
}

/// Appending digits never shrinks the denoted number.
proof fn lemma_dec_value_extend(t: Seq<char>, u: Seq<char>)
    requires
        is_digits(t),
        is_digits(u),
        dec_value(t) >= 0,
    ensures
        dec_value(t + u) >= dec_value(t),
    decreases u.len(),
{
    if u.len() == 0 {
        assert(t + u =~= t);
    } else {
        assert(is_digits(u.drop_last())) by {
            assert(forall|i: int|
                0 <= i < u.drop_last().len() ==> u.drop_last()[i] == #[trigger] u[i]);
        }
        lemma_dec_value_extend(t, u.drop_last());
        let s = t + u;
        assert(s.drop_last() =~= t + u.drop_last());
        assert(s.last() == u.last());
        assert('0' <= u.last() <= '9') by {
            assert(u[u.len() - 1] == u.last());
        }
        assert(dec_value(t + u.drop_last()) * 10 >= dec_value(t)) by (nonlinear_arith)
            requires
                dec_value(t + u.drop_last()) >= dec_value(t),
                dec_value(t) >= 0,
        ;
    }
}

/// Reads `s` as `u8::from_str` does: an optional leading `+` sign, then at
/// least one decimal digit, denoting a value of at most 255.
pub fn parse_u8(s: &str) -> (r: Option<u8>)
    ensures
        r == u8_from_str_spec(s@),
{
    let n = s.unicode_len();
    let start: usize = if n > 0 && s.get_char(0) == '+' {
        1
    } else {
        0
    };
    let ghost digits = s@.skip(start as int);
    proof {
        assert(digits =~= if s@.len() > 0 && s@[0] == '+' {
            s@.skip(1)
        } else {
            s@
        });
    }
    if n == start {
        return Option::None;
    }
    let mut value: u32 = 0;
    let mut i: usize = start;
    while i < n
        invariant
            start <= i <= n,
            n == s@.len(),
            digits == s@.skip(start as int),
            digits == (if s@.len() > 0 && s@[0] == '+' {
                s@.skip(1)
            } else {
                s@
            }),
            forall|k: int| start <= k < i ==> '0' <= #[trigger] s@[k] <= '9',
            value == dec_value(s@.subrange(start as int, i as int)),
            value <= 255,
        decreases n - i,
    {
        let c = s.get_char(i);
        let code = c as u32;
        if code < '0' as u32 || code > '9' as u32 {
            proof {
                assert(digits[i - start] == s@[i as int]);
                assert(!('0' <= digits[i - start] <= '9'));
            }
            return Option::None;
        }
        let d = code - '0' as u32;
        proof {
            let prefix = s@.subrange(start as int, i as int);
            let extended = s@.subrange(start as int, i + 1 as int);
            assert(extended.drop_last() =~= prefix);
            assert(extended.last() == s@[i as int]);
            assert('0' <= s@[i as int] <= '9');
            assert(dec_value(extended) == value * 10 + d);
        }
        let next = value * 10 + d;
        if next > 255 {
            proof {
                let prefix = s@.subrange(start as int, i + 1 as int);
                if is_digits(digits) {
                    assert(prefix =~= digits.take(i + 1 - start));
                    assert(is_digits(prefix));
                    lemma_dec_value_nonneg(prefix);
                    assert(is_digits(digits.skip(i + 1 - start))) by {
                        assert(forall|k: int|
                            0 <= k < digits.skip(i + 1 - start).len() ==> digits.skip(
                                i + 1 - start,
                            )[k] == #[trigger] digits[k + i + 1 - start]);
                    }
                    lemma_dec_value_extend(prefix, digits.skip(i + 1 - start));
                    assert(prefix + digits.skip(i + 1 - start) =~= digits);
                }
            }
            return Option::None;
        }
        value = next;
        i = i + 1;
    }
    proof {
        assert(s@.subrange(start as int, n as int) =~= digits);
    }
    Option::Some(value as u8)
}

/// The color that `s` denotes: exactly three comma-delimited pieces, each a
/// decimal byte, read as the red, green and blue channels.
pub open spec fn parse_rgb_spec(s: Seq<char>) -> Option<Color> {
    let parts = split_spec(s, ',');
    if parts.len() == 3 {
        match (u8_from_str_spec(parts[0]), u8_from_str_spec(parts[1]), u8_from_str_spec(
            parts[2],
        )) {
            (Option::Some(r), Option::Some(g), Option::Some(b)) => Option::Some(
                Color { r, g, b },
            ),
            _ => Option::None,
        }
    } else {
        Option::None
    }
}

/// Parses `s` as an `R,G,B` byte triple.
pub fn parse_rgb(s: &str) -> (r: Option<Color>)
    ensures
        r == parse_rgb_spec(s@),
{
    match split3(s, ',') {
        Option::None => Option::None,
        Option::Some((a, b, c)) => {
            match (parse_u8(a), parse_u8(b), parse_u8(c)) {
                (Option::Some(red), Option::Some(green), Option::Some(blue)) => Option::Some(
                    Color { r: red, g: green, b: blue },
                ),
                _ => Option::None,
            }
        },
    }
}

/// What `usize::from_str` accepts: an optional leading `+`, then at least
/// one decimal digit, denoting a value that fits in `usize`.
pub open spec fn usize_from_str_spec(s: Seq<char>) -> Option<usize> {
    let digits = if s.len() > 0 && s[0] == '+' {
        s.skip(1)
    } else {
        s
    };
    if digits.len() == 0 || !is_digits(digits) {
        Option::None
    } else if dec_value(digits) > usize::MAX {
        Option::None
    } else {
        Option::Some(dec_value(digits) as usize)
    }
}

/// Relies on `usize::from_str`: it accepts an optional leading `+` sign
/// followed by decimal digits, and fails on any other text and on values
/// that overflow `usize`.
#[verifier::external_body]
fn parse_usize(s: &str) -> (r: Option<usize>)
    ensures
        r == usize_from_str_spec(s@),
{
    s.parse::<usize>().ok()
}

/// The raster bounds that `s` denotes: a pixel count pair such as
/// `1000x750`, split at the first occurrence of `sep`, both pieces decimal
/// `usize` values.
pub open spec fn parse_bounds_spec(s: Seq<char>, sep: char) -> Option<(usize, usize)> {
    match split_first_spec(s, sep) {
        Option::None => Option::None,
        Option::Some((left, rest)) => match (usize_from_str_spec(left), usize_from_str_spec(
            rest,
        )) {
            (Option::Some(w), Option::Some(h)) => Option::Some((w, h)),
            _ => Option::None,
        },
    }
}

/// Parses `s` as the raster's `WIDTHxHEIGHT` bounds: the pieces before and
/// after the first `separator`, each read as a decimal pixel count.
pub fn parse_bounds(s: &str, separator: char) -> (r: Option<(usize, usize)>)
    ensures
        r == parse_bounds_spec(s@, separator),
{
    match split_first_at(s, separator) {
        Option::None => {
            proof {
                lemma_split_first_spec_none(s@, separator);
            }
            Option::None
        },
        Option::Some((left, rest)) => {
            proof {
                lemma_split_first_spec_of(left@, rest@, separator);
            }
            match (parse_usize(left), parse_usize(rest)) {
                (Option::Some(w), Option::Some(h)) => Option::Some((w, h)),
                _ => Option::None,
            }
        },
    }
}

} // verus!
