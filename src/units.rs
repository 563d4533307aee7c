use vstd::prelude::*;
use vstd::arithmetic::div_mod::{
    lemma_div_denominator, lemma_div_is_ordered, lemma_div_multiples_vanish,
    lemma_fundamental_div_mod, lemma_hoist_over_denominator,
};

use crate::decimal::{
    all_digits, digit_value, digits_value, is_digit, lemma_digits_concat, lemma_digits_lt_pow,
    lemma_digits_prefix_le, pow10, Decimal, DecimalText,
};
use crate::error::ParseError;
use crate::text::chars_of;

verus! {

/// The unit table: bytes per unit, for the decimal and the binary suffixes that the
/// runtime prints. Lookup is exact and case-sensitive.
pub open spec fn unit_factor(u: Seq<char>) -> Option<nat> {
    if u =~= seq!['B'] {
        Some(1)
    } else if u =~= seq!['k', 'B'] {
        Some(1000)
    } else if u =~= seq!['M', 'B'] {
        Some(1000000)
    } else if u =~= seq!['G', 'B'] {
        Some(1000000000)
    } else if u =~= seq!['T', 'B'] {
        Some(1000000000000)
    } else if u =~= seq!['K', 'i', 'B'] {
        Some(1024)
    } else if u =~= seq!['M', 'i', 'B'] {
        Some(1048576)
    } else if u =~= seq!['G', 'i', 'B'] {
        Some(1073741824)
    } else if u =~= seq!['T', 'i', 'B'] {
        Some(1099511627776)
    } else {
        None
    }
}

/// The largest factor in the unit table.
pub const MAX_FACTOR: u64 = 1099511627776;

/// `x / d` rounded to the nearest integer, halves rounded up.
pub open spec fn round_div(x: nat, d: nat) -> nat {
    ((2 * x + d) / (2 * d)) as nat
}

/// The number a decimal's digits spell, ignoring the point.
pub open spec fn all_digits_value(m: DecimalText) -> nat {
    digits_value(m.integer + m.fraction)
}

/// The signed value of a decimal's exponent.
pub open spec fn exponent_value(m: DecimalText) -> int {
    if m.exponent_negative {
        -(digits_value(m.exponent) as int)
    } else {
        digits_value(m.exponent) as int
    }
}

/// The power of ten that scales a decimal's digits: its exponent less its fraction length.
pub open spec fn shift(m: DecimalText) -> int {
    exponent_value(m) - m.fraction.len()
}

/// `m * factor` is `scaled_numerator(m, factor) / scaled_denominator(m)`.
pub open spec fn scaled_numerator(m: DecimalText, factor: nat) -> nat {
    if shift(m) >= 0 {
        all_digits_value(m) * factor * pow10(shift(m) as nat)
    } else {
        all_digits_value(m) * factor
    }
}

pub open spec fn scaled_denominator(m: DecimalText) -> nat {
    if shift(m) >= 0 {
        1
    } else {
        pow10((-shift(m)) as nat)
    }
}

/// `round(m * factor)` as a byte count: negative quantities give 0 and quantities past
/// `u64::MAX` give `u64::MAX`.
pub open spec fn bytes_of(m: DecimalText, factor: nat) -> nat {
    if m.negative {
        0
    } else {
        let q = round_div(scaled_numerator(m, factor), scaled_denominator(m));
        if q > u64::MAX {
            u64::MAX as nat
        } else {
            q
        }
    }
}

/// What `convert_to_bytes(m, unit)` returns: the rounded byte count for a unit of the
/// table, else `UnknownUnit` carrying the unit.
pub open spec fn conversion_outcome(m: DecimalText, unit: Seq<char>, r: Result<u64, ParseError>) -> bool {
    match unit_factor(unit) {
        Some(f) => r == Ok::<u64, ParseError>(bytes_of(m, f) as u64),
        None => r is Err && r->Err_0 is UnknownUnit && r->Err_0->UnknownUnit_0@ == unit,
    }
}

/// Looks `u` up in the unit table.
pub fn unit_factor_of(u: &Vec<char>) -> (r: Option<u64>)
    ensures
        r matches Some(f) ==> unit_factor(u@) == Some(f as nat) && 1 <= f <= MAX_FACTOR,
        r is None ==> unit_factor(u@) is None,
{
    let n = u.len();
    let r = if n == 1 && u[0] == 'B' {
        Some(1u64)
    } else if n == 2 && u[0] == 'k' && u[1] == 'B' {
        Some(1000u64)
    } else if n == 2 && u[0] == 'M' && u[1] == 'B' {
        Some(1000000u64)
    } else if n == 2 && u[0] == 'G' && u[1] == 'B' {
        Some(1000000000u64)
    } else if n == 2 && u[0] == 'T' && u[1] == 'B' {
        Some(1000000000000u64)
    } else if n == 3 && u[0] == 'K' && u[1] == 'i' && u[2] == 'B' {
        Some(1024u64)
    } else if n == 3 && u[0] == 'M' && u[1] == 'i' && u[2] == 'B' {
        Some(1048576u64)
    } else if n == 3 && u[0] == 'G' && u[1] == 'i' && u[2] == 'B' {
        Some(1073741824u64)
    } else if n == 3 && u[0] == 'T' && u[1] == 'i' && u[2] == 'B' {
        Some(1099511627776u64)
    } else {
        None
    };
    proof {
        if r is None {
            assert(u@ !~= seq!['B']);
            assert(u@ !~= seq!['k', 'B']);
            assert(u@ !~= seq!['M', 'B']);
            assert(u@ !~= seq!['G', 'B']);
            assert(u@ !~= seq!['T', 'B']);
            assert(u@ !~= seq!['K', 'i', 'B']);
            assert(u@ !~= seq!['M', 'i', 'B']);
            assert(u@ !~= seq!['G', 'i', 'B']);
            assert(u@ !~= seq!['T', 'i', 'B']);
        }
    }
    r
}

proof fn lemma_pow10_pos(n: nat)
    ensures
        pow10(n) >= 1,
    decreases n,
{
    if n > 0 {
        lemma_pow10_pos((n - 1) as nat);
    }
}

proof fn lemma_pow10_add(a: nat, b: nat)
    ensures
        pow10(a + b) == pow10(a) * pow10(b),
    decreases b,
{
    if b > 0 {
        lemma_pow10_add(a, (b - 1) as nat);
        assert(pow10(a + b) == 10 * pow10((a + b - 1) as nat));
        assert(pow10(a) * (10 * pow10((b - 1) as nat)) == 10 * (pow10(a) * pow10((b - 1) as nat)))
            by (nonlinear_arith);
    } else {
        assert(pow10(0) == 1);
    }
}

proof fn lemma_pow10_mono(a: nat, b: nat)
    requires
        a <= b,
    ensures
        pow10(a) <= pow10(b),
    decreases b,
{
    if a < b {
        lemma_pow10_mono(a, (b - 1) as nat);
    }
}

/// Rounding splits at a power of ten: for `x = i * p + fv`, `round(x * factor / p)` is
/// `(i * g + floor(fv * g / p) + 1) / 2` with `g = 2 * factor`.
proof fn lemma_round_split(i: int, fv: int, p: int, factor: int)
    requires
        i >= 0,
        fv >= 0,
        p >= 1,
        factor >= 0,
    ensures
        (2 * ((i * p + fv) * factor) + p) / (2 * p) == (i * (2 * factor) + (fv * (2 * factor)) / p
            + 1) / 2,
{
    let g = 2 * factor;
    let x = 2 * ((i * p + fv) * factor) + p;
    assert(x == (fv * g + p) + (i * g) * p) by (nonlinear_arith)
        requires
            x == 2 * ((i * p + fv) * factor) + p,
            g == 2 * factor,
    ;
    assert(fv * g >= 0) by (nonlinear_arith)
        requires
            fv >= 0,
            g >= 0,
    ;
    lemma_div_denominator(x, p, 2);
    assert(2 * p == p * 2) by (nonlinear_arith);
    lemma_hoist_over_denominator(fv * g + p, i * g, p as nat);
    lemma_hoist_over_denominator(fv * g, 1, p as nat);
}

/// A quantity whose whole part passes `u64::MAX` rounds past it too.
proof fn lemma_saturates(i: int, fv: int, p: int, factor: int)
    requires
        i > u64::MAX,
        fv >= 0,
        p >= 1,
        factor >= 1,
    ensures
        (2 * ((i * p + fv) * factor) + p) / (2 * p) > u64::MAX,
{
    lemma_round_split(i, fv, p, factor);
    let g = 2 * factor;
    assert(fv * g >= 0) by (nonlinear_arith)
        requires
            fv >= 0,
            g >= 0,
    ;
    let c = (fv * g) / p;
    lemma_div_is_ordered(i * g, i * g + c + 1, 2);
    assert(i * g == (i * factor) * 2) by (nonlinear_arith)
        requires
            g == 2 * factor,
    ;
    lemma_div_multiples_vanish(i * factor, 2);
    assert(2 * (i * factor) == (i * factor) * 2) by (nonlinear_arith);
    assert(i * factor >= i) by (nonlinear_arith)
        requires
            factor >= 1,
            i >= 0,
    ;
}

/// A quantity far below one rounds to 0.
proof fn lemma_vanishes(d: int, n: nat, factor: int, down: nat)
    requires
        0 <= d < pow10(n),
        0 <= factor <= MAX_FACTOR,
        down >= n + 13,
    ensures
        (2 * (d * factor) + pow10(down) as int) / (2 * pow10(down) as int) == 0,
{
    reveal_with_fuel(pow10, 14);
    assert(pow10(13) == 10000000000000);
    lemma_pow10_mono(13, (down - n) as nat);
    lemma_pow10_add(n, (down - n) as nat);
    let pn = pow10(n) as int;
    let pd = pow10(down) as int;
    let pr = pow10((down - n) as nat) as int;
    assert(2 * (d * factor) < pd) by (nonlinear_arith)
        requires
            0 <= d < pn,
            0 <= factor <= 1099511627776,
            pd == pn * pr,
            pr >= 10000000000000,
    ;
    assert((2 * (d * factor) + pd) / (2 * pd) == 0) by (nonlinear_arith)
        requires
            0 <= 2 * (d * factor) < pd,
    ;
}

/// `round_div(x, 1)` is `x`.
proof fn lemma_round_div_one(x: nat)
    ensures
        round_div(x, 1) == x,
{
    assert((2 * x + 1) / 2 == x as int) by (nonlinear_arith);
}

/// The value of the digits `d[lo..hi]` when it is at most `cap`, else `None`.
fn capped_value(d: &Vec<char>, lo: usize, hi: usize, cap: u128) -> (r: Option<u128>)
    requires
        lo <= hi <= d.len(),
        all_digits(d@),
        cap <= 0x10000000000000000000000000,
    ensures
        r matches Some(v) ==> v == digits_value(d@.subrange(lo as int, hi as int)) && v <= cap,
        r is None ==> digits_value(d@.subrange(lo as int, hi as int)) > cap,
{
    let ghost t = d@.subrange(lo as int, hi as int);
    let mut v: u128 = 0;
    let mut j = lo;
    while j < hi
        invariant
            lo <= j <= hi <= d.len(),
            all_digits(d@),
            t == d@.subrange(lo as int, hi as int),
            cap <= 0x10000000000000000000000000,
            v <= cap,
            v == digits_value(t.subrange(0, j - lo)),
        decreases hi - j,
    {
        assert(is_digit(d@[j as int]));
        assert(t.subrange(0, j + 1 - lo).drop_last() =~= t.subrange(0, j - lo));
        assert(t.subrange(0, j + 1 - lo).last() == d@[j as int]);
        let x = (d[j] as u32 - '0' as u32) as u128;
        let next = v * 10 + x;
        j = j + 1;
        if next > cap {
            proof {
                lemma_digits_prefix_le(t, j - lo);
            }
            return None;
        }
        v = next;
    }
    assert(t.subrange(0, hi - lo) =~= t);
    Some(v)
}

/// `floor(digits_value(d[lo..]) * g / 10^(d.len() - lo + extra))`, computed from the last
/// digit to the first.
fn fraction_floor(d: &Vec<char>, lo: usize, g: u128, extra: usize) -> (c: u128)
    requires
        lo <= d.len(),
        all_digits(d@),
        g <= 2 * MAX_FACTOR,
    ensures
        c == (digits_value(d@.subrange(lo as int, d.len() as int)) * g) as int / (pow10(
            (d.len() - lo + extra) as nat,
        ) as int),
        c <= g,
{
    let n = d.len();
    let mut c: u128 = 0;
    let mut k: usize = n;
    assert(d@.subrange(n as int, n as int) =~= Seq::<char>::empty());
    assert(pow10(0) == 1);
    assert(digits_value(Seq::<char>::empty()) == 0);
    while k > lo
        invariant
            lo <= k <= n == d.len(),
            all_digits(d@),
            g <= 2 * MAX_FACTOR,
            c as int == (digits_value(d@.subrange(k as int, n as int)) * g) as int / (pow10(
                (n - k) as nat,
            ) as int),
            c <= g,
        decreases k,
    {
        let ch = d[k - 1];
        assert(is_digit(d@[k - 1]));
        let x = (ch as u32 - '0' as u32) as u128;
        let ghost tail = d@.subrange(k as int, n as int);
        let ghost tail1 = d@.subrange(k - 1, n as int);
        let ghost pk = pow10((n - k) as nat) as int;
        let ghost v = digits_value(tail) as int;
        proof {
            assert(tail1 =~= seq![ch] + tail);
            lemma_digits_concat(seq![ch], tail);
            assert(seq![ch].drop_last() =~= Seq::<char>::empty());
            assert(seq![ch].last() == ch);
            assert(digits_value(Seq::<char>::empty()) == 0);
            assert(digits_value(seq![ch]) == digits_value(seq![ch].drop_last()) * 10 + digit_value(ch));
            assert(digits_value(seq![ch]) == x);
            assert(pow10((n - (k - 1)) as nat) == 10 * pk);
            lemma_pow10_pos((n - k) as nat);
            assert(v * g >= 0 && x * g >= 0) by (nonlinear_arith)
                requires
                    v >= 0,
                    x >= 0,
                    g >= 0,
            ;
            assert((x * pk + v) * g == v * g + (x * g) * pk) by (nonlinear_arith);
            lemma_hoist_over_denominator(v * g, x * g, pk as nat);
            lemma_div_denominator((x * pk + v) * g, pk, 10);
            assert(pk * 10 == 10 * pk) by (nonlinear_arith);
            let all = d@;
            assert(all_digits(tail1)) by {
                assert forall|i: int| 0 <= i < tail1.len() implies is_digit(#[trigger] tail1[i]) by {
                    assert(tail1[i] == all[k - 1 + i]);
                }
            }
            lemma_digits_lt_pow(tail1);
            let v1 = digits_value(tail1) as int;
            let p1 = 10 * pk;
            assert(v1 * g <= p1 * g) by (nonlinear_arith)
                requires
                    v1 < p1,
                    g >= 0,
            ;
            lemma_div_is_ordered(v1 * g, p1 * g, p1);
            assert(p1 * g == g * p1) by (nonlinear_arith);
            lemma_div_multiples_vanish(g as int, p1);
        }
        assert(x <= 9);
        c = (x * g + c) / 10;
        k = k - 1;
    }
    let ghost v = digits_value(d@.subrange(lo as int, n as int)) as int;
    let mut e: usize = 0;
    while e < extra
        invariant
            e <= extra,
            lo <= n == d.len(),
            v == digits_value(d@.subrange(lo as int, n as int)),
            c as int == (v * g) / (pow10((n - lo + e) as nat) as int),
            c <= g,
        decreases extra - e,
    {
        proof {
            lemma_pow10_pos((n - lo + e) as nat);
            assert(v * g >= 0) by (nonlinear_arith)
                requires
                    v >= 0,
                    g >= 0,
            ;
            let pe = pow10((n - lo + e) as nat) as int;
            lemma_div_denominator(v * g, pe, 10);
            assert(pow10((n - lo + e + 1) as nat) == 10 * pe);
            assert(pe * 10 == 10 * pe) by (nonlinear_arith);
        }
        c = c / 10;
        e = e + 1;
    }
    c
}

/// `a` followed by `b`, as one vector.
fn concat_chars(a: &Vec<char>, b: &Vec<char>) -> (r: Vec<char>)
    ensures
        r@ == a@ + b@,
{
    let mut v: Vec<char> = Vec::new();
    for i in 0..a.len()
        invariant
            v@ == a@.subrange(0, i as int),
    {
        v.push(a[i]);
        assert(v@ =~= a@.subrange(0, i + 1));
    }
    assert(a@.subrange(0, a.len() as int) =~= a@);
    for i in 0..b.len()
        invariant
            v@ == a@ + b@.subrange(0, i as int),
    {
        v.push(b[i]);
        assert(v@ =~= a@ + b@.subrange(0, i + 1));
    }
    assert(b@.subrange(0, b.len() as int) =~= b@);
    v
}

/// Exponents above this bound are out of every range a byte count can reach.
const EXPONENT_CAP: u128 = 0x10000000000000000000000000;

/// `round(digits_value(ds) * factor / 10^dn)`, saturating at `u64::MAX`; `down` is `dn`
/// when it is known to be at most `EXPONENT_CAP`.
fn divide_rounded(ds: &Vec<char>, factor: u64, down: Option<u128>, Ghost(dn): Ghost<nat>) -> (q: u64)
    requires
        all_digits(ds@),
        1 <= factor <= MAX_FACTOR,
        down matches Some(d) ==> d == dn,
        down is None ==> dn > EXPONENT_CAP,
    ensures
        ({
            let v = round_div(digits_value(ds@) * (factor as nat), pow10(dn));
            q == if v > u64::MAX {
                u64::MAX as nat
            } else {
                v
            }
        }),
{
    let n = ds.len();
    let g: u128 = 2 * (factor as u128);
    let ghost dv = digits_value(ds@) as int;
    proof {
        lemma_digits_lt_pow(ds@);
        lemma_pow10_pos(dn);
    }
    let big = match down {
        Some(d) => d >= n as u128 + 13,
        None => true,
    };
    if big {
        proof {
            lemma_vanishes(dv, n as nat, factor as int, dn);
        }
        return 0;
    }
    let down = down.unwrap();
    if down >= n as u128 {
        let c = fraction_floor(ds, 0, g, (down - n as u128) as usize);
        proof {
            assert(ds@.subrange(0, n as int) =~= ds@);
            lemma_round_split(0, dv, pow10(dn) as int, factor as int);
            assert(0 * (2 * factor) == 0);
            assert(0 * pow10(dn) + dv == dv);
        }
        return ((c + 1) / 2) as u64;
    }
    let l = n - down as usize;
    let ghost a = ds@.subrange(0, l as int);
    let ghost b = ds@.subrange(l as int, n as int);
    proof {
        assert(ds@ =~= a + b);
        lemma_digits_concat(a, b);
    }
    let c = fraction_floor(ds, l, g, 0);
    let i = match capped_value(ds, 0, l, u64::MAX as u128) {
        Some(i) => i,
        None => {
            proof {
                lemma_saturates(digits_value(a) as int, digits_value(b) as int, pow10(dn) as int, factor as int);
            }
            return u64::MAX;
        },
    };
    proof {
        lemma_round_split(i as int, digits_value(b) as int, pow10(dn) as int, factor as int);
    }
    assert(i * g + c + 1 <= 18446744073709551615u128 * 2199023255552u128 + 2199023255553u128) by (nonlinear_arith)
        requires
            i <= 18446744073709551615u128,
            g <= 2199023255552u128,
            c <= g,
    ;
    let q = (i * g + c + 1) / 2;
    if q > u64::MAX as u128 {
        u64::MAX
    } else {
        q as u64
    }
}

/// `digits_value(ds) * factor * 10^un`, saturating at `u64::MAX`; `up` is `un` when it is
/// known to be at most `EXPONENT_CAP`.
fn multiply_saturating(ds: &Vec<char>, factor: u64, up: Option<u128>, Ghost(un): Ghost<nat>) -> (q: u64)
    requires
        all_digits(ds@),
        1 <= factor <= MAX_FACTOR,
        up matches Some(u) ==> u == un,
        up is None ==> un >= 20,
    ensures
        ({
            let v: nat = digits_value(ds@) * (factor as nat) * pow10(un);
            q == if v > u64::MAX {
                u64::MAX as nat
            } else {
                v
            }
        }),
{
    let n = ds.len();
    let ghost dv = digits_value(ds@) as int;
    assert(ds@.subrange(0, n as int) =~= ds@);
    proof {
        lemma_pow10_pos(un);
    }
    let dval = match capped_value(ds, 0, n, u64::MAX as u128) {
        Some(v) => v,
        None => {
            assert(dv * factor * pow10(un) >= dv) by (nonlinear_arith)
                requires
                    dv >= 0,
                    factor >= 1,
                    pow10(un) >= 1,
            ;
            return u64::MAX;
        },
    };
    if dval == 0 {
        assert(0 * factor * pow10(un) == 0) by (nonlinear_arith);
        return 0;
    }
    let up = match up {
        Some(u) => u,
        None => 20,
    };
    if up >= 20 {
        proof {
            reveal_with_fuel(pow10, 21);
            assert(pow10(20) == 100000000000000000000);
            lemma_pow10_mono(20, un);
            assert(dv * factor * pow10(un) >= pow10(un)) by (nonlinear_arith)
                requires
                    dv >= 1,
                    factor >= 1,
                    pow10(un) >= 1,
            ;
        }
        return u64::MAX;
    }
    assert(dval * factor <= 18446744073709551615u128 * 1099511627776u128) by (nonlinear_arith)
        requires
            dval <= 18446744073709551615u128,
            factor <= 1099511627776u64,
    ;
    assert(pow10(0) == 1);
    let mut x: u128 = dval * (factor as u128);
    let mut j: u128 = 0;
    while j < up
        invariant
            j <= up < 20,
            up == un,
            dval == digits_value(ds@),
            1 <= factor <= MAX_FACTOR,
            x == dval * factor * pow10(j as nat),
            x <= 18446744073709551615u128 * 1099511627776u128,
        decreases up - j,
    {
        if x > u64::MAX as u128 {
            proof {
                lemma_pow10_add(j as nat, (up - j) as nat);
                lemma_pow10_pos((up - j) as nat);
                let x0 = x as int;
                let r = pow10((up - j) as nat) as int;
                assert(x0 * r >= x0) by (nonlinear_arith)
                    requires
                        x0 >= 0,
                        r >= 1,
                ;
                assert(dval * factor * pow10(up as nat) == x0 * r) by (nonlinear_arith)
                    requires
                        x0 == dval * factor * pow10(j as nat),
                        pow10(up as nat) == pow10(j as nat) * r,
                ;
            }
            return u64::MAX;
        }
        x = x * 10;
        j = j + 1;
        proof {
            assert(pow10(j as nat) == 10 * pow10((j - 1) as nat));
            assert(dval * factor * (10 * pow10((j - 1) as nat)) == 10 * (dval * factor * pow10(
                (j - 1) as nat,
            ))) by (nonlinear_arith);
        }
    }
    if x > u64::MAX as u128 {
        u64::MAX
    } else {
        x as u64
    }
}

/// Converts a magnitude in `unit` to a whole number of bytes, rounding to the nearest
/// byte. Fails with `UnknownUnit` when `unit` is not in the unit table.
pub fn convert_to_bytes(value: Decimal, unit: String) -> (r: Result<u64, ParseError>)
    requires
        value.wf(),
    ensures
        conversion_outcome(value@, unit@, r),
{
    let u = chars_of(unit.as_str());
    let factor = match unit_factor_of(&u) {
        Some(f) => f,
        None => {
            return Err(ParseError::UnknownUnit(unit));
        },
    };
    if value.negative {
        return Ok(0);
    }
    let ghost m = value@;
    let ds = concat_chars(&value.integer, &value.fraction);
    assert(all_digits(ds@)) by {
        assert forall|i: int| 0 <= i < ds@.len() implies is_digit(#[trigger] ds@[i]) by {
            if i < value.integer@.len() {
                assert(ds@[i] == value.integer@[i]);
            } else {
                assert(ds@[i] == value.fraction@[i - value.integer@.len()]);
            }
        }
    }
    assert(all_digits_value(m) == digits_value(ds@));
    let s: u128 = value.fraction.len() as u128;
    let ne = value.exponent.len();
    assert(value.exponent@.subrange(0, ne as int) =~= value.exponent@);
    let e = capped_value(&value.exponent, 0, ne, EXPONENT_CAP);
    // the shift's sign, and its size unless the exponent is out of range
    let (negative_shift, amount): (bool, Option<u128>) = match e {
        Some(e) => {
            if value.exponent_negative && e + s > 0 {
                (true, Some(e + s))
            } else if value.exponent_negative {
                (false, Some(0))
            } else if e >= s {
                (false, Some(e - s))
            } else {
                (true, Some(s - e))
            }
        },
        None => (value.exponent_negative, None),
    };
    assert(s <= 0xffff_ffff_ffff_ffffu128);
    proof {
        assert(m.fraction.len() == s);
        assert(m.exponent == value.exponent@);
        if e is Some {
            assert(e->0 == digits_value(value.exponent@));
        } else {
            assert(digits_value(value.exponent@) > EXPONENT_CAP);
        }
        if m.exponent_negative {
            assert(exponent_value(m) == -(digits_value(m.exponent) as int));
        } else {
            assert(exponent_value(m) == digits_value(m.exponent) as int);
        }
    }
    assert(negative_shift <==> shift(m) < 0);
    if negative_shift {
        assert(scaled_denominator(m) == pow10((-shift(m)) as nat));
        let q = divide_rounded(&ds, factor, amount, Ghost((-shift(m)) as nat));
        Ok(q)
    } else {
        proof {
            lemma_round_div_one(scaled_numerator(m, factor as nat));
        }
        assert(amount is None ==> shift(m) >= 20);
        let q = multiply_saturating(&ds, factor, amount, Ghost(shift(m) as nat));
        Ok(q)
    }
}

/// Conversion rounds to the nearest byte: unless it saturates at `u64::MAX`, the result
/// `r` of a non-negative magnitude `m` in a unit of the table is the integer with
/// `r - 1/2 <= m * factor < r + 1/2`, where `m * factor` is `x / d` below.
pub proof fn lemma_conversion_rounds_to_nearest(m: DecimalText, unit: Seq<char>)
    requires
        unit_factor(unit) is Some,
        !m.negative,
    ensures
        ({
            let f = unit_factor(unit)->0;
            let r = bytes_of(m, f);
            let d = scaled_denominator(m);
            let x = scaled_numerator(m, f);
            r == u64::MAX || (2 * r * d <= 2 * x + d && 2 * x + d < 2 * (r + 1) * d)
        }),
{
    let f = unit_factor(unit)->0;
    if shift(m) < 0 {
        lemma_pow10_pos((-shift(m)) as nat);
    }
    let d: int = scaled_denominator(m) as int;
    let x: int = scaled_numerator(m, f) as int;
    lemma_fundamental_div_mod(2 * x + d, 2 * d);
    let q: int = (2 * x + d) / (2 * d);
    let rem: int = (2 * x + d) % (2 * d);
    assert(2 * q * d <= 2 * x + d && 2 * x + d < 2 * (q + 1) * d) by (nonlinear_arith)
        requires
            2 * x + d == (2 * d) * q + rem,
            0 <= rem < 2 * d,
    ;
}

} // verus!
