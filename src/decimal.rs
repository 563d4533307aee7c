use vstd::prelude::*;

verus! {

/// A decimal number as the runtime prints it: a sign, the digits before the point, the
/// digits after it, and a signed power of ten, all kept.
#[derive(Clone, Debug, PartialEq, Eq)]
pub struct Decimal {
    pub negative: bool,
    pub integer: Vec<char>,
    pub fraction: Vec<char>,
    pub exponent_negative: bool,
    pub exponent: Vec<char>,
}

/// What a `Decimal` denotes:
/// `(-1)^negative * (integer + 0.fraction) * 10^((-1)^exponent_negative * exponent)`.
pub struct DecimalText {
    pub negative: bool,
    pub integer: Seq<char>,
    pub fraction: Seq<char>,
    pub exponent_negative: bool,
    pub exponent: Seq<char>,
}

impl View for Decimal {
    type V = DecimalText;

    open spec fn view(&self) -> DecimalText {
        DecimalText {
            negative: self.negative,
            integer: self.integer@,
            fraction: self.fraction@,
            exponent_negative: self.exponent_negative,
            exponent: self.exponent@,
        }
    }
}

impl Decimal {
    /// Every stored character is a decimal digit.
    pub open spec fn wf(&self) -> bool {
        all_digits(self.integer@) && all_digits(self.fraction@) && all_digits(self.exponent@)
    }
}

pub open spec fn is_digit(c: char) -> bool {
    '0' <= c && c <= '9'
}

pub open spec fn digit_value(c: char) -> nat {
    (c as int - '0' as int) as nat
}

pub open spec fn all_digits(d: Seq<char>) -> bool {
    forall|i: int| 0 <= i < d.len() ==> is_digit(#[trigger] d[i])
}

/// The value of a run of decimal digits, most significant first.
pub open spec fn digits_value(d: Seq<char>) -> nat
    decreases d.len(),
{
    if d.len() == 0 {
        0
    } else {
        digits_value(d.drop_last()) * 10 + digit_value(d.last())
    }
}

pub open spec fn pow10(n: nat) -> nat
    decreases n,
{
    if n == 0 {
        1
    } else {
        10 * pow10((n - 1) as nat)
    }
}

/// Length of the leading sign, if any.
pub open spec fn sign_len(s: Seq<char>) -> int {
    if s.len() > 0 && (s[0] == '+' || s[0] == '-') {
        1
    } else {
        0
    }
}

/// Index of the first `.` in `b`, or `b.len()` when there is none.
pub open spec fn dot_index(b: Seq<char>) -> int
    decreases b.len(),
{
    if b.len() == 0 || b[0] == '.' {
        0
    } else {
        1 + dot_index(b.drop_first())
    }
}

/// Index of the first `e` or `E` in `b`, or `b.len()` when there is none.
pub open spec fn exp_index(b: Seq<char>) -> int
    decreases b.len(),
{
    if b.len() == 0 || b[0] == 'e' || b[0] == 'E' {
        0
    } else {
        1 + exp_index(b.drop_first())
    }
}

/// The text after the sign.
pub open spec fn unsigned_part(s: Seq<char>) -> Seq<char> {
    s.subrange(sign_len(s), s.len() as int)
}

/// The text after the sign and before the exponent marker.
pub open spec fn mantissa_text(s: Seq<char>) -> Seq<char> {
    let b = unsigned_part(s);
    b.subrange(0, exp_index(b))
}

/// The part of mantissa text `b` before its point.
pub open spec fn before_point(b: Seq<char>) -> Seq<char> {
    b.subrange(0, dot_index(b))
}

/// The part of mantissa text `b` after its point (empty when there is no point).
pub open spec fn after_point(b: Seq<char>) -> Seq<char> {
    let p = dot_index(b);
    if p < b.len() {
        b.subrange(p + 1, b.len() as int)
    } else {
        Seq::empty()
    }
}

/// The digits before the decimal point.
pub open spec fn integer_digits(s: Seq<char>) -> Seq<char> {
    before_point(mantissa_text(s))
}

/// The digits after the decimal point (empty when there is no point).
pub open spec fn fraction_digits(s: Seq<char>) -> Seq<char> {
    after_point(mantissa_text(s))
}

/// `s` has an exponent marker.
pub open spec fn has_exponent(s: Seq<char>) -> bool {
    exp_index(unsigned_part(s)) < unsigned_part(s).len()
}

/// The text after the exponent marker (empty when there is none).
pub open spec fn exponent_text(s: Seq<char>) -> Seq<char> {
    let b = unsigned_part(s);
    if has_exponent(s) {
        b.subrange(exp_index(b) + 1, b.len() as int)
    } else {
        Seq::empty()
    }
}

/// The text after a leading sign.
pub open spec fn unsigned_text(e: Seq<char>) -> Seq<char> {
    e.subrange(sign_len(e), e.len() as int)
}

/// The exponent's digits, after its sign.
pub open spec fn exponent_digits(s: Seq<char>) -> Seq<char> {
    unsigned_text(exponent_text(s))
}

/// `s` is an optional sign, digits with at most one decimal point and at least one digit,
/// then optionally `e` or `E`, an optional sign and at least one digit.
pub open spec fn is_decimal_text(s: Seq<char>) -> bool {
    &&& all_digits(integer_digits(s))
    &&& all_digits(fraction_digits(s))
    &&& integer_digits(s).len() + fraction_digits(s).len() > 0
    &&& has_exponent(s) ==> exponent_digits(s).len() > 0 && all_digits(exponent_digits(s))
}

/// The decimal that `s` denotes, when `s` is decimal text.
pub open spec fn decimal_of(s: Seq<char>) -> Option<DecimalText> {
    if is_decimal_text(s) {
        Some(
            DecimalText {
                negative: sign_len(s) == 1 && s[0] == '-',
                integer: integer_digits(s),
                fraction: fraction_digits(s),
                exponent_negative: sign_len(exponent_text(s)) == 1 && exponent_text(s)[0] == '-',
                exponent: exponent_digits(s),
            },
        )
    } else {
        None
    }
}

proof fn lemma_exp_index(b: Seq<char>, k: int)
    requires
        0 <= k <= b.len(),
        forall|j: int| 0 <= j < k ==> b[j] != 'e' && b[j] != 'E',
        k == b.len() || b[k] == 'e' || b[k] == 'E',
    ensures
        exp_index(b) == k,
    decreases k,
{
    if k > 0 {
        lemma_exp_index(b.drop_first(), k - 1);
    }
}

proof fn lemma_dot_index(b: Seq<char>, k: int)
    requires
        0 <= k <= b.len(),
        forall|j: int| 0 <= j < k ==> b[j] != '.',
        k == b.len() || b[k] == '.',
    ensures
        dot_index(b) == k,
    decreases k,
{
    if k > 0 {
        lemma_dot_index(b.drop_first(), k - 1);
    }
}

/// A prefix of a digit run is worth no more than the whole run.
pub proof fn lemma_digits_prefix_le(d: Seq<char>, k: int)
    requires
        0 <= k <= d.len(),
    ensures
        digits_value(d.subrange(0, k)) <= digits_value(d),
    decreases d.len(),
{
    if k < d.len() {
        assert(d.drop_last().subrange(0, k) =~= d.subrange(0, k));
        lemma_digits_prefix_le(d.drop_last(), k);
    } else {
        assert(d.subrange(0, k) =~= d);
    }
}

/// Digits written after others shift those by one place each.
pub proof fn lemma_digits_concat(a: Seq<char>, b: Seq<char>)
    ensures
        digits_value(a + b) == digits_value(a) * pow10(b.len()) + digits_value(b),
    decreases b.len(),
{
    if b.len() == 0 {
        assert(a + b =~= a);
        assert(pow10(0) == 1);
        assert(digits_value(b) == 0);
    } else {
        let b1 = b.drop_last();
        assert((a + b).drop_last() =~= a + b1);
        assert((a + b).last() == b.last());
        assert(digits_value(a + b) == digits_value(a + b1) * 10 + digit_value(b.last()));
        assert(digits_value(b) == digits_value(b1) * 10 + digit_value(b.last()));
        lemma_digits_concat(a, b1);
        let va = digits_value(a);
        let p1 = pow10(b1.len());
        let v1 = digits_value(b1);
        assert(pow10(b.len()) == 10 * p1);
        assert(digits_value(a + b1) == va * p1 + v1);
        assert((va * p1 + v1) * 10 + digit_value(b.last()) == va * (10 * p1) + (v1 * 10 + digit_value(
            b.last(),
        ))) by (nonlinear_arith);
    }
}

/// `n` digits are worth less than `10^n`.
pub proof fn lemma_digits_lt_pow(d: Seq<char>)
    requires
        all_digits(d),
    ensures
        digits_value(d) < pow10(d.len()),
    decreases d.len(),
{
    if d.len() > 0 {
        let d1 = d.drop_last();
        assert(all_digits(d1)) by {
            assert forall|i: int| 0 <= i < d1.len() implies is_digit(#[trigger] d1[i]) by {
                assert(d1[i] == d[i]);
            }
        }
        assert(is_digit(d[d.len() - 1]));
        lemma_digits_lt_pow(d1);
        let v1 = digits_value(d1);
        let p1 = pow10(d1.len());
        assert(v1 * 10 + digit_value(d.last()) < 10 * p1) by (nonlinear_arith)
            requires
                v1 < p1,
                digit_value(d.last()) <= 9,
        ;
    }
}

/// Copies `s[lo..hi]` when it is all digits.
fn copy_digits(s: &Vec<char>, lo: usize, hi: usize) -> (r: Option<Vec<char>>)
    requires
        lo <= hi <= s.len(),
    ensures
        r is Some <==> all_digits(s@.subrange(lo as int, hi as int)),
        r matches Some(v) ==> v@ == s@.subrange(lo as int, hi as int),
{
    let mut v: Vec<char> = Vec::new();
    let mut j = lo;
    while j < hi
        invariant
            lo <= j <= hi <= s.len(),
            v@ == s@.subrange(lo as int, j as int),
            all_digits(v@),
        decreases hi - j,
    {
        let c = s[j];
        if !('0' <= c && c <= '9') {
            assert(s@.subrange(lo as int, hi as int)[j - lo] == c);
            return None;
        }
        v.push(c);
        j = j + 1;
        assert(v@ =~= s@.subrange(lo as int, j as int));
    }
    Some(v)
}

/// Reads mantissa text `s[lo..hi]` into its digits before and after the point.
fn parse_mantissa(s: &Vec<char>, lo: usize, hi: usize) -> (r: Option<(Vec<char>, Vec<char>)>)
    requires
        lo <= hi <= s.len(),
    ensures
        ({
            let b = s@.subrange(lo as int, hi as int);
            &&& r is Some <==> (all_digits(before_point(b)) && all_digits(after_point(b))
                && before_point(b).len() + after_point(b).len() > 0)
            &&& r matches Some((i, f)) ==> i@ == before_point(b) && f@ == after_point(b)
        }),
{
    let ghost b = s@.subrange(lo as int, hi as int);
    let mut p = lo;
    while p < hi && s[p] != '.'
        invariant
            lo <= p <= hi <= s.len(),
            forall|j: int| lo <= j < p ==> s[j] != '.',
        decreases hi - p,
    {
        p = p + 1;
    }
    proof {
        lemma_dot_index(b, p - lo);
    }
    let fs = if p < hi {
        p + 1
    } else {
        hi
    };
    assert(before_point(b) =~= s@.subrange(lo as int, p as int));
    assert(after_point(b) =~= s@.subrange(fs as int, hi as int));
    if p - lo + (hi - fs) == 0 {
        return None;
    }
    let integer = match copy_digits(s, lo, p) {
        Some(v) => v,
        None => {
            return None;
        },
    };
    let fraction = match copy_digits(s, fs, hi) {
        Some(v) => v,
        None => {
            return None;
        },
    };
    Some((integer, fraction))
}

/// Reads exponent text `s[lo..hi]`: an optional sign, then at least one digit.
fn parse_exponent(s: &Vec<char>, lo: usize, hi: usize) -> (r: Option<(bool, Vec<char>)>)
    requires
        lo <= hi <= s.len(),
    ensures
        ({
            let e = s@.subrange(lo as int, hi as int);
            &&& r is Some <==> (unsigned_text(e).len() > 0 && all_digits(unsigned_text(e)))
            &&& r matches Some((neg, v)) ==> neg == (sign_len(e) == 1 && e[0] == '-') && v@
                == unsigned_text(e)
        }),
{
    let ghost e = s@.subrange(lo as int, hi as int);
    let mut negative = false;
    let mut e0 = lo;
    if lo < hi && (s[lo] == '+' || s[lo] == '-') {
        negative = s[lo] == '-';
        e0 = lo + 1;
    }
    assert(unsigned_text(e) =~= s@.subrange(e0 as int, hi as int));
    if e0 == hi {
        return None;
    }
    match copy_digits(s, e0, hi) {
        Some(v) => Some((negative, v)),
        None => None,
    }
}

/// Parses `s[lo..hi]` as decimal text.
pub fn parse_decimal(s: &Vec<char>, lo: usize, hi: usize) -> (r: Option<Decimal>)
    requires
        lo <= hi <= s.len(),
    ensures
        r is Some <==> decimal_of(s@.subrange(lo as int, hi as int)) is Some,
        r matches Some(d) ==> d.wf() && decimal_of(s@.subrange(lo as int, hi as int)) == Some(d@),
{
    let ghost t = s@.subrange(lo as int, hi as int);
    let mut negative = false;
    let mut b0 = lo;
    if lo < hi && (s[lo] == '+' || s[lo] == '-') {
        negative = s[lo] == '-';
        b0 = lo + 1;
    }
    let ghost b = s@.subrange(b0 as int, hi as int);
    assert(negative == (sign_len(t) == 1 && t[0] == '-'));
    assert(unsigned_part(t) =~= b);
    let mut x = b0;
    while x < hi && s[x] != 'e' && s[x] != 'E'
        invariant
            b0 <= x <= hi <= s.len(),
            forall|j: int| b0 <= j < x ==> s[j] != 'e' && s[j] != 'E',
        decreases hi - x,
    {
        x = x + 1;
    }
    proof {
        lemma_exp_index(b, x - b0);
    }
    assert(mantissa_text(t) =~= s@.subrange(b0 as int, x as int));
    let (integer, fraction) = match parse_mantissa(s, b0, x) {
        Some(p) => p,
        None => {
            return None;
        },
    };
    let (exponent_negative, exponent) = if x < hi {
        assert(exponent_text(t) =~= s@.subrange(x + 1, hi as int));
        match parse_exponent(s, x + 1, hi) {
            Some(e) => e,
            None => {
                return None;
            },
        }
    } else {
        assert(exponent_text(t) =~= Seq::<char>::empty());
        assert(exponent_digits(t) =~= Seq::<char>::empty());
        (false, Vec::new())
    };
    let d = Decimal { negative, integer, fraction, exponent_negative, exponent };
    assert(decimal_of(t) == Some(d@));
    Some(d)
}

} // verus!
