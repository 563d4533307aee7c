use vstd::prelude::*;

use crate::decimal::{
    all_digits, decimal_of, digits_value, is_digit, lemma_digits_prefix_le, parse_decimal, Decimal,
    DecimalText,
};
use crate::error::ParseError;
use crate::text::{alphabetic, chars_of, is_alphabetic, string_of};
use crate::units::{bytes_of, conversion_outcome, convert_to_bytes, unit_factor};

verus! {

/// Where the trailing run of alphabetic characters of `s` starts.
pub open spec fn unit_start(s: Seq<char>) -> int
    decreases s.len(),
{
    if s.len() > 0 && alphabetic(s.last()) {
        unit_start(s.drop_last())
    } else {
        s.len() as int
    }
}

/// The number in front of a size's unit.
pub open spec fn size_number(s: Seq<char>) -> Seq<char> {
    s.subrange(0, unit_start(s))
}

/// A size's unit: the longest trailing run of alphabetic characters.
pub open spec fn size_unit(s: Seq<char>) -> Seq<char> {
    s.subrange(unit_start(s), s.len() as int)
}

/// The byte count that size text denotes, when it has one.
pub open spec fn size_value(s: Seq<char>) -> Option<nat> {
    match decimal_of(size_number(s)) {
        Some(m) => match unit_factor(size_unit(s)) {
            Some(f) => Some(bytes_of(m, f)),
            None => None,
        },
        None => None,
    }
}

/// What reading size text `s` returns: `MalformedSize` when its number is not decimal
/// text, else the conversion of that number in its unit.
pub open spec fn size_outcome(s: Seq<char>, r: Result<u64, ParseError>) -> bool {
    match decimal_of(size_number(s)) {
        None => r == Err::<u64, ParseError>(ParseError::MalformedSize),
        Some(m) => conversion_outcome(m, size_unit(s), r),
    }
}

/// The decimal that percent text denotes: a decimal followed by `%`.
pub open spec fn percent_of(s: Seq<char>) -> Option<DecimalText> {
    if s.len() > 0 && s.last() == '%' {
        decimal_of(s.drop_last())
    } else {
        None
    }
}

/// The count that count text denotes: an optional `+`, then digits that fit in a `u64`.
pub open spec fn count_of(s: Seq<char>) -> Option<u64> {
    let b = if s.len() > 0 && s[0] == '+' {
        s.drop_first()
    } else {
        s
    };
    if b.len() > 0 && all_digits(b) && digits_value(b) <= u64::MAX {
        Some(digits_value(b) as u64)
    } else {
        None
    }
}

pub open spec fn is_sep_at(s: Seq<char>, i: int) -> bool {
    0 <= i && i + 3 <= s.len() && s[i] == ' ' && s[i + 1] == '/' && s[i + 2] == ' '
}

/// The first place at or after `from` where `" / "` occurs, or `s.len()`.
pub open spec fn next_sep(s: Seq<char>, from: int) -> int
    decreases s.len() - from,
{
    if from < 0 || from + 3 > s.len() {
        s.len() as int
    } else if is_sep_at(s, from) {
        from
    } else {
        next_sep(s, from + 1)
    }
}

/// The two sides of `s` around `" / "`, when splitting on it gives exactly two parts.
pub open spec fn pair_split(s: Seq<char>) -> Option<(Seq<char>, Seq<char>)> {
    let i = next_sep(s, 0);
    if i < s.len() && next_sep(s, i + 3) == s.len() {
        Some((s.subrange(0, i), s.subrange(i + 3, s.len() as int)))
    } else {
        None
    }
}

/// The two byte counts that size-pair text denotes, when it has them.
pub open spec fn pair_value(s: Seq<char>) -> Option<(nat, nat)> {
    match pair_split(s) {
        Some((a, b)) => match (size_value(a), size_value(b)) {
            (Some(x), Some(y)) => Some((x, y)),
            _ => None,
        },
        None => None,
    }
}

/// What reading size-pair text `s` returns: `MalformedPair` unless it splits in two,
/// else the failure of the left side, else that of the right side, else both values.
pub open spec fn pair_outcome(s: Seq<char>, r: Result<(u64, u64), ParseError>) -> bool {
    match pair_split(s) {
        None => r == Err::<(u64, u64), ParseError>(ParseError::MalformedPair),
        Some((a, b)) => match size_value(a) {
            None => r is Err && size_outcome(a, Err(r->Err_0)),
            Some(x) => match size_value(b) {
                None => r is Err && size_outcome(b, Err(r->Err_0)),
                Some(y) => r == Ok::<(u64, u64), ParseError>((x as u64, y as u64)),
            },
        },
    }
}

proof fn lemma_size_outcome_value(s: Seq<char>, r: Result<u64, ParseError>)
    requires
        size_outcome(s, r),
    ensures
        r is Ok <==> size_value(s) is Some,
        r is Ok ==> size_value(s) == Some(r->Ok_0 as nat),
{
    if let Some(m) = decimal_of(size_number(s)) {
        if let Some(f) = unit_factor(size_unit(s)) {
            assert(bytes_of(m, f) <= u64::MAX);
        }
    }
}

/// Reads size text `c[lo..hi]`.
fn size_in(c: &Vec<char>, lo: usize, hi: usize) -> (r: Result<u64, ParseError>)
    requires
        lo <= hi <= c.len(),
    ensures
        size_outcome(c@.subrange(lo as int, hi as int), r),
{
    let ghost t = c@.subrange(lo as int, hi as int);
    let mut k = hi;
    assert(t.subrange(0, (hi - lo) as int) =~= t);
    while k > lo && is_alphabetic(c[k - 1])
        invariant
            lo <= k <= hi <= c.len(),
            t == c@.subrange(lo as int, hi as int),
            unit_start(t.subrange(0, k - lo)) == unit_start(t),
        decreases k,
    {
        assert(t.subrange(0, k - lo).drop_last() =~= t.subrange(0, k - 1 - lo));
        k = k - 1;
    }
    assert(unit_start(t) == k - lo);
    assert(size_number(t) =~= c@.subrange(lo as int, k as int));
    assert(size_unit(t) =~= c@.subrange(k as int, hi as int));
    let number = string_of(&copy_range(c, lo, k));
    let unit = string_of(&copy_range(c, k, hi));
    parse_split_size(number.as_str(), unit)
}

/// `c[lo..hi]`.
fn copy_range(c: &Vec<char>, lo: usize, hi: usize) -> (r: Vec<char>)
    requires
        lo <= hi <= c.len(),
    ensures
        r@ == c@.subrange(lo as int, hi as int),
{
    let mut v: Vec<char> = Vec::new();
    let mut j = lo;
    while j < hi
        invariant
            lo <= j <= hi <= c.len(),
            v@ == c@.subrange(lo as int, j as int),
        decreases hi - j,
    {
        v.push(c[j]);
        j = j + 1;
        assert(v@ =~= c@.subrange(lo as int, j as int));
    }
    v
}

/// Reads a size already split into its number and its unit: `MalformedSize` when the
/// number is not decimal text, else the conversion of the number in the unit.
pub fn parse_split_size(number: &str, unit: String) -> (r: Result<u64, ParseError>)
    ensures
        match decimal_of(number@) {
            None => r == Err::<u64, ParseError>(ParseError::MalformedSize),
            Some(m) => conversion_outcome(m, unit@, r),
        },
{
    let c = chars_of(number);
    assert(c@.subrange(0, c@.len() as int) =~= c@);
    match parse_decimal(&c, 0, c.len()) {
        Some(m) => convert_to_bytes(m, unit),
        None => Err(ParseError::MalformedSize),
    }
}

/// Reads size text such as `1.1GB` as a byte count: a decimal number directly followed
/// by a unit of the unit table, rounded to the nearest byte (saturating at `u64::MAX`).
pub fn parse_bytes(str: String) -> (r: Result<u64, ParseError>)
    ensures
        size_outcome(str@, r),
        r is Ok <==> size_value(str@) is Some,
        r is Ok ==> size_value(str@) == Some(r->Ok_0 as nat),
{
    let c = chars_of(str.as_str());
    assert(c@.subrange(0, c@.len() as int) =~= c@);
    let r = size_in(&c, 0, c.len());
    proof {
        lemma_size_outcome_value(str@, r);
    }
    r
}

/// The first place at or after `from` where `" / "` occurs in `c`, or `c.len()`.
fn find_sep(c: &Vec<char>, from: usize) -> (r: usize)
    requires
        from <= c.len(),
    ensures
        r == next_sep(c@, from as int),
        r <= c.len(),
{
    let n = c.len();
    let mut i = from;
    while n - i >= 3 && !(c[i] == ' ' && c[i + 1] == '/' && c[i + 2] == ' ')
        invariant
            from <= i <= n,
            n == c.len(),
            next_sep(c@, i as int) == next_sep(c@, from as int),
        decreases n - i,
    {
        i = i + 1;
    }
    if n - i >= 3 {
        i
    } else {
        n
    }
}

proof fn lemma_next_sep(s: Seq<char>, from: int)
    requires
        0 <= from,
    ensures
        next_sep(s, from) == s.len() || is_sep_at(s, next_sep(s, from)),
    decreases s.len() - from,
{
    if from + 3 <= s.len() && !is_sep_at(s, from) {
        lemma_next_sep(s, from + 1);
    }
}

/// Reads size-pair text such as `1.1GB / 473MB` as its two byte counts, left first.
pub fn parse_slashy_values(str: &str) -> (r: Result<(u64, u64), ParseError>)
    ensures
        pair_outcome(str@, r),
        r is Ok <==> pair_value(str@) is Some,
        r matches Ok((x, y)) ==> pair_value(str@) == Some((x as nat, y as nat)),
{
    let c = chars_of(str);
    let n = c.len();
    let i = find_sep(&c, 0);
    proof {
        lemma_next_sep(c@, 0);
    }
    if i >= n {
        return Err(ParseError::MalformedPair);
    }
    let j = find_sep(&c, i + 3);
    if j < n {
        return Err(ParseError::MalformedPair);
    }
    let ghost a = c@.subrange(0, i as int);
    let ghost b = c@.subrange(i + 3, n as int);
    assert(pair_split(str@) == Some((a, b)));
    let x = size_in(&c, 0, i);
    proof {
        lemma_size_outcome_value(a, x);
    }
    let x = match x {
        Ok(x) => x,
        Err(e) => {
            return Err(e);
        },
    };
    let y = size_in(&c, i + 3, n);
    proof {
        lemma_size_outcome_value(b, y);
    }
    let y = match y {
        Ok(y) => y,
        Err(e) => {
            return Err(e);
        },
    };
    Ok((x, y))
}

/// Reads percent text such as `69.07%`: a decimal followed by `%`.
pub fn parse_percent(percent_string: String) -> (r: Result<Decimal, ParseError>)
    ensures
        match percent_of(percent_string@) {
            Some(d) => r is Ok && r->Ok_0@ == d && r->Ok_0.wf(),
            None => r == Err::<Decimal, ParseError>(ParseError::MalformedPercent),
        },
{
    let c = chars_of(percent_string.as_str());
    let n = c.len();
    if n == 0 || c[n - 1] != '%' {
        return Err(ParseError::MalformedPercent);
    }
    assert(c@.subrange(0, n - 1) =~= c@.drop_last());
    match parse_decimal(&c, 0, n - 1) {
        Some(d) => Ok(d),
        None => Err(ParseError::MalformedPercent),
    }
}

/// Reads count text such as `79`: an optional `+`, then digits, as a `u64`.
pub fn parse_count(s: &str) -> (r: Result<u64, ParseError>)
    ensures
        match count_of(s@) {
            Some(v) => r == Ok::<u64, ParseError>(v),
            None => r == Err::<u64, ParseError>(ParseError::MalformedCount),
        },
{
    let c = chars_of(s);
    let n = c.len();
    let b0: usize = if n > 0 && c[0] == '+' {
        1
    } else {
        0
    };
    let ghost b = c@.subrange(b0 as int, n as int);
    assert(b =~= (if c@.len() > 0 && c@[0] == '+' { c@.drop_first() } else { c@ }));
    if b0 == n {
        return Err(ParseError::MalformedCount);
    }
    let mut v: u64 = 0;
    let mut k = b0;
    while k < n
        invariant
            b0 <= k <= n == c.len(),
            c@ == s@,
            b == c@.subrange(b0 as int, n as int),
            b == (if c@.len() > 0 && c@[0] == '+' { c@.drop_first() } else { c@ }),
            all_digits(b.subrange(0, k - b0)),
            v == digits_value(b.subrange(0, k - b0)),
        decreases n - k,
    {
        let ch = c[k];
        assert(b.subrange(0, k + 1 - b0).drop_last() =~= b.subrange(0, k - b0));
        if !('0' <= ch && ch <= '9') {
            assert(!is_digit(b[k - b0]));
            return Err(ParseError::MalformedCount);
        }
        let d = (ch as u32 - '0' as u32) as u64;
        if v > (u64::MAX - d) / 10 {
            proof {
                lemma_digits_prefix_le(b, k + 1 - b0);
            }
            return Err(ParseError::MalformedCount);
        }
        v = v * 10 + d;
        k = k + 1;
        assert(all_digits(b.subrange(0, k - b0))) by {
            assert forall|i: int| 0 <= i < k - b0 implies is_digit(#[trigger] b.subrange(0, k - b0)[i]) by {
                if i < k - 1 - b0 {
                    assert(b.subrange(0, k - b0)[i] == b.subrange(0, k - 1 - b0)[i]);
                }
            }
        }
    }
    assert(b.subrange(0, n - b0) =~= b);
    Ok(v)
}

} // verus!
