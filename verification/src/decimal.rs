//! Exact decimal numbers read from the upstream ticker fields.
//!
//! A price string such as `"105.25"` is modelled as a signed mantissa
//! together with a power-of-ten scale: the value is `num / 10^scale`.
//! All arithmetic on prices is done exactly over these integers, so the
//! derived fields of a report are pinned down without any rounding noise
//! beyond the one rounding step the percentage formula asks for.

use vstd::prelude::*;

verus! {

/// Largest number of digit characters a price string may carry and still be
/// accepted; keeps every intermediate product of the percentage formula
/// inside `i128`.
pub const MAX_DIGITS: usize = 15;

pub open spec fn is_digit(c: char) -> bool {
    c == '0' || c == '1' || c == '2' || c == '3' || c == '4' || c == '5' || c == '6' || c == '7'
        || c == '8' || c == '9'
}

pub open spec fn digit_val(c: char) -> int {
    if c == '0' {
        0
    } else if c == '1' {
        1
    } else if c == '2' {
        2
    } else if c == '3' {
        3
    } else if c == '4' {
        4
    } else if c == '5' {
        5
    } else if c == '6' {
        6
    } else if c == '7' {
        7
    } else if c == '8' {
        8
    } else if c == '9' {
        9
    } else {
        0
    }
}

pub open spec fn count_digits(t: Seq<char>) -> nat
    decreases t.len(),
{
    if t.len() == 0 {
        0
    } else {
        count_digits(t.drop_last()) + (if is_digit(t.last()) {
            1nat
        } else {
            0nat
        })
    }
}

pub open spec fn count_dots(t: Seq<char>) -> nat
    decreases t.len(),
{
    if t.len() == 0 {
        0
    } else {
        count_dots(t.drop_last()) + (if t.last() == '.' {
            1nat
        } else {
            0nat
        })
    }
}

pub open spec fn has_dot(t: Seq<char>) -> bool {
    exists|i: int| 0 <= i < t.len() && t[i] == '.'
}

/// Digits read as an integer, the decimal point skipped: the mantissa.
pub open spec fn mant_of(t: Seq<char>) -> int
    decreases t.len(),
{
    if t.len() == 0 {
        0
    } else if t.last() == '.' {
        mant_of(t.drop_last())
    } else {
        mant_of(t.drop_last()) * 10 + digit_val(t.last())
    }
}

/// Number of digits behind the decimal point, 0 when there is none.
pub open spec fn scale_of(t: Seq<char>) -> nat
    decreases t.len(),
{
    if t.len() == 0 {
        0
    } else if t.last() == '.' {
        0
    } else if has_dot(t.drop_last()) {
        scale_of(t.drop_last()) + 1
    } else {
        0
    }
}

/// Length of the optional leading sign.
pub open spec fn sign_len(s: Seq<char>) -> int {
    if s.len() > 0 && (s[0] == '-' || s[0] == '+') {
        1
    } else {
        0
    }
}

pub open spec fn dec_is_neg(s: Seq<char>) -> bool {
    s.len() > 0 && s[0] == '-'
}

/// The string behind the optional sign: digits and at most one point.
pub open spec fn dec_body(s: Seq<char>) -> Seq<char> {
    s.subrange(sign_len(s), s.len() as int)
}

pub open spec fn body_ok(t: Seq<char>) -> bool {
    &&& forall|i: int| 0 <= i < t.len() ==> is_digit(t[i]) || t[i] == '.'
    &&& count_dots(t) <= 1
    &&& count_digits(t) >= 1
}

/// The decimal grammar: an optional sign, then digits with at most one
/// decimal point among them and at least one digit.
pub open spec fn is_decimal_str(s: Seq<char>) -> bool {
    body_ok(dec_body(s))
}

/// A decimal string the parser accepts: well-formed and short enough for
/// exact machine arithmetic.
pub open spec fn dec_fits(s: Seq<char>) -> bool {
    is_decimal_str(s) && count_digits(dec_body(s)) <= MAX_DIGITS
}

/// Signed mantissa of a decimal string.
pub open spec fn dec_num(s: Seq<char>) -> int {
    if dec_is_neg(s) {
        -mant_of(dec_body(s))
    } else {
        mant_of(dec_body(s))
    }
}

pub open spec fn dec_scale(s: Seq<char>) -> nat {
    scale_of(dec_body(s))
}

pub open spec fn pow10(n: nat) -> int
    decreases n,
{
    if n == 0 {
        1
    } else {
        10 * pow10((n - 1) as nat)
    }
}

pub proof fn lemma_pow10_pos(n: nat)
    ensures
        pow10(n) >= 1,
    decreases n,
{
    if n > 0 {
        lemma_pow10_pos((n - 1) as nat);
    }
}

pub proof fn lemma_pow10_mono(a: nat, b: nat)
    requires
        a <= b,
    ensures
        pow10(a) <= pow10(b),
    decreases b,
{
    if a < b {
        lemma_pow10_mono(a, (b - 1) as nat);
        lemma_pow10_pos((b - 1) as nat);
    }
}

/// How each statistic of a character sequence grows when one character is
/// appended; the parser's loop walks the string exactly this way.
proof fn lemma_push_char(p: Seq<char>, c: char)
    ensures
        count_digits(p.push(c)) == count_digits(p) + (if is_digit(c) {
            1nat
        } else {
            0nat
        }),
        count_dots(p.push(c)) == count_dots(p) + (if c == '.' {
            1nat
        } else {
            0nat
        }),
        has_dot(p.push(c)) == (has_dot(p) || c == '.'),
        scale_of(p.push(c)) == (if c == '.' {
            0nat
        } else if has_dot(p) {
            scale_of(p) + 1
        } else {
            0nat
        }),
        mant_of(p.push(c)) == (if c == '.' {
            mant_of(p)
        } else {
            mant_of(p) * 10 + digit_val(c)
        }),
        (forall|i: int| 0 <= i < p.push(c).len() ==> is_digit(#[trigger] p.push(c)[i]) || p.push(c)[i]
            == '.') == ((forall|i: int| 0 <= i < p.len() ==> is_digit(#[trigger] p[i]) || p[i] == '.')
            && (is_digit(c) || c == '.')),
{
    assert(p.push(c).drop_last() =~= p);
    if (forall|i: int| 0 <= i < p.len() ==> is_digit(#[trigger] p[i]) || p[i] == '.') && (is_digit(c)
        || c == '.') {
        assert forall|i: int| 0 <= i < p.push(c).len() implies is_digit(#[trigger] p.push(c)[i])
            || p.push(c)[i] == '.' by {
            if i < p.len() {
                assert(p.push(c)[i] == p[i]);
            } else {
                assert(p.push(c)[i] == c);
            }
        }
    }
    if forall|i: int| 0 <= i < p.push(c).len() ==> is_digit(#[trigger] p.push(c)[i]) || p.push(c)[i]
        == '.' {
        assert forall|i: int| 0 <= i < p.len() implies is_digit(#[trigger] p[i]) || p[i] == '.' by {
            assert(p.push(c)[i] == p[i]);
            assert(is_digit(p.push(c)[i]) || p.push(c)[i] == '.');
        }
        assert(p.push(c)[p.len() as int] == c);
    }
    assert(p.push(c).last() == c);
    if c == '.' {
        assert(p.push(c)[p.len() as int] == c);
        assert(has_dot(p.push(c)));
    }
    if has_dot(p) {
        let i = choose|i: int| 0 <= i < p.len() && p[i] == '.';
        assert(p.push(c)[i] == '.');
        assert(has_dot(p.push(c)));
    }
    if has_dot(p.push(c)) && c != '.' {
        let i = choose|i: int| 0 <= i < p.push(c).len() && p.push(c)[i] == '.';
        assert(p[i] == '.');
        assert(has_dot(p));
    }
}

proof fn lemma_mant_bound(t: Seq<char>)
    requires
        forall|i: int| 0 <= i < t.len() ==> is_digit(t[i]) || t[i] == '.',
    ensures
        0 <= mant_of(t) < pow10(count_digits(t)),
    decreases t.len(),
{
    if t.len() == 0 {
    } else {
        assert(forall|i: int|
            0 <= i < t.drop_last().len() ==> is_digit(#[trigger] t.drop_last()[i]) || t.drop_last()[i]
                == '.');
        lemma_mant_bound(t.drop_last());
        if t.last() != '.' {
            assert(is_digit(t.last()));
            assert(0 <= digit_val(t.last()) <= 9);
            let cd = count_digits(t.drop_last());
            assert(pow10(cd + 1) == 10 * pow10(cd));
        }
    }
}

proof fn lemma_scale_le_digits(t: Seq<char>)
    requires
        forall|i: int| 0 <= i < t.len() ==> is_digit(t[i]) || t[i] == '.',
    ensures
        scale_of(t) <= count_digits(t),
    decreases t.len(),
{
    if t.len() > 0 {
        assert(forall|i: int|
            0 <= i < t.drop_last().len() ==> is_digit(#[trigger] t.drop_last()[i]) || t.drop_last()[i]
                == '.');
        lemma_scale_le_digits(t.drop_last());
        assert(is_digit(t.last()) || t.last() == '.');
    }
}

/// A parsed decimal: the value is `num() / 10^scale`.
pub struct Dec {
    pub neg: bool,
    pub mant: u64,
    pub scale: u32,
}

impl Dec {
    pub open spec fn wf(self) -> bool {
        self.mant < 1000000000000000 && self.scale <= 15
    }

    pub open spec fn num(self) -> int {
        if self.neg {
            -(self.mant as int)
        } else {
            self.mant as int
        }
    }

    /// True of exactly the parse of `s`.
    pub open spec fn models(self, s: Seq<char>) -> bool {
        &&& self.neg == dec_is_neg(s)
        &&& self.mant == mant_of(dec_body(s))
        &&& self.scale == scale_of(dec_body(s))
    }
}

fn digit_of(c: char) -> (r: Option<u64>)
    ensures
        r matches Some(d) ==> is_digit(c) && d == digit_val(c) && d <= 9,
        r is None ==> !is_digit(c),
{
    match c {
        '0' => Some(0),
        '1' => Some(1),
        '2' => Some(2),
        '3' => Some(3),
        '4' => Some(4),
        '5' => Some(5),
        '6' => Some(6),
        '7' => Some(7),
        '8' => Some(8),
        '9' => Some(9),
        _ => None,
    }
}

/// Parse a decimal string; `None` exactly on text outside the grammar or
/// with more than `MAX_DIGITS` digits.
pub fn parse_dec(s: &str) -> (r: Option<Dec>)
    ensures
        r is Some <==> dec_fits(s@),
        r matches Some(d) ==> d.wf() && d.models(s@),
{
    let n = s.unicode_len();
    let start: usize = if n > 0 {
        let c0 = s.get_char(0);
        if c0 == '-' || c0 == '+' {
            1
        } else {
            0
        }
    } else {
        0
    };
    let neg = n > 0 && s.get_char(0) == '-';
    assert(start == sign_len(s@));
    assert(neg == dec_is_neg(s@));
    let mut i: usize = start;
    let mut ok: bool = true;
    let mut dots: usize = 0;
    let mut digits: usize = 0;
    let mut seen_dot: bool = false;
    let mut frac: usize = 0;
    let mut mant: u64 = 0;
    while i < n
        invariant
            start <= i <= n,
            n == s@.len(),
            start == sign_len(s@),
            ({
                let p = s@.subrange(start as int, i as int);
                &&& ok == (forall|j: int| 0 <= j < p.len() ==> is_digit(p[j]) || p[j] == '.')
                &&& dots == count_dots(p)
                &&& digits == count_digits(p)
                &&& seen_dot == has_dot(p)
                &&& (ok ==> frac == scale_of(p))
                &&& (ok && digits <= 15 ==> mant == mant_of(p))
                &&& (!seen_dot ==> frac == 0)
                &&& dots <= i
                &&& digits <= i
                &&& frac <= i
            }),
        decreases n - i,
    {
        let ghost p = s@.subrange(start as int, i as int);
        let c = s.get_char(i);
        proof {
            assert(s@.subrange(start as int, i + 1 as int) =~= p.push(c));
            lemma_push_char(p, c);
        }
        if c == '.' {
            dots = dots + 1;
            seen_dot = true;
            frac = 0;
            proof {
                if ok && digits <= 15 {
                    assert(mant_of(p.push(c)) == mant_of(p));
                }
            }
        } else {
            match digit_of(c) {
                Some(d) => {
                    proof {
                        if ok && digits < 15 {
                            lemma_mant_bound(p);
                            lemma_pow10_mono(count_digits(p), 14);
                            reveal_with_fuel(pow10, 16);
                            assert(mant < 100000000000000);
                        }
                    }
                    digits = digits + 1;
                    if seen_dot {
                        frac = frac + 1;
                    }
                    if ok && digits <= 15 {
                        mant = mant * 10 + d;
                    }
                },
                None => {
                    ok = false;
                    proof {
                        assert(p.push(c)[p.len() as int] == c);
                        assert(!(is_digit(p.push(c)[p.len() as int]) || p.push(c)[p.len() as int]
                            == '.'));
                    }
                },
            }
        }
        i = i + 1;
        proof {
            let p2 = s@.subrange(start as int, i as int);
            assert(p2 =~= p.push(c));
        }
    }
    let ghost body = s@.subrange(start as int, i as int);
    proof {
        assert(body =~= dec_body(s@));
    }
    if ok && dots <= 1 && digits >= 1 && digits <= MAX_DIGITS {
        proof {
            lemma_mant_bound(body);
            lemma_pow10_mono(count_digits(body), 15);
            reveal_with_fuel(pow10, 16);
            lemma_scale_le_digits(body);
        }
        Some(Dec { neg, mant, scale: frac as u32 })
    } else {
        None
    }
}


pub open spec fn abs_int(x: int) -> int {
    if x < 0 {
        -x
    } else {
        x
    }
}

/// Integer division rounded to the nearest quotient, halves away from zero.
pub open spec fn rounded_div(n: int, d: int) -> int
    recommends
        d != 0,
{
    let q = (2 * abs_int(n) + abs_int(d)) / (2 * abs_int(d));
    if (n < 0) <==> (d < 0) {
        q
    } else {
        -q
    }
}

/// The change column in hundredths of a percent point:
/// `round(((l - o) / o) * 101.00 * 100)` for `l = ln/10^ls`, `o = on/10^os`,
/// carried out exactly over the cross-multiplied integers.
pub open spec fn change_hundredths(ln: int, ls: nat, on: int, os: nat) -> int
    recommends
        on != 0,
{
    let lnum = ln * pow10(os);
    let onum = on * pow10(ls);
    rounded_div(10100 * (lnum - onum), onum)
}

/// `a/10^sa < b/10^sb`, decided exactly by cross-multiplication.
pub open spec fn val_lt(a: int, sa: nat, b: int, sb: nat) -> bool {
    a * pow10(sb) < b * pow10(sa)
}

fn pow10_u64(e: u32) -> (r: u64)
    requires
        e <= 15,
    ensures
        r == pow10(e as nat),
{
    let mut k: u32 = 0;
    let mut r: u64 = 1;
    while k < e
        invariant
            k <= e <= 15,
            r == pow10(k as nat),
        decreases e - k,
    {
        proof {
            lemma_pow10_mono(k as nat, 14);
            reveal_with_fuel(pow10, 16);
        }
        r = r * 10;
        k = k + 1;
    }
    r
}

/// Compare two parsed decimals as exact rational values.
pub fn dec_lt(a: &Dec, b: &Dec) -> (r: bool)
    requires
        a.wf(),
        b.wf(),
    ensures
        r == val_lt(a.num(), a.scale as nat, b.num(), b.scale as nat),
{
    let pa = pow10_u64(b.scale);
    let pb = pow10_u64(a.scale);
    proof {
        lemma_pow10_mono(b.scale as nat, 15);
        lemma_pow10_mono(a.scale as nat, 15);
        lemma_pow10_pos(b.scale as nat);
        lemma_pow10_pos(a.scale as nat);
        reveal_with_fuel(pow10, 16);
        assert((a.mant as int) * (pa as int) <= 1000000000000000int * 1000000000000000int
            && (a.mant as int) * (pa as int) >= 0) by (nonlinear_arith)
            requires
                0 <= a.mant as int <= 1000000000000000int,
                0 <= pa as int <= 1000000000000000int,
        ;
        assert((b.mant as int) * (pb as int) <= 1000000000000000int * 1000000000000000int
            && (b.mant as int) * (pb as int) >= 0) by (nonlinear_arith)
            requires
                0 <= b.mant as int <= 1000000000000000int,
                0 <= pb as int <= 1000000000000000int,
        ;
    }
    let am = (a.mant as u128) * (pa as u128);
    let bm = (b.mant as u128) * (pb as u128);
    let ai: i128 = if a.neg {
        -(am as i128)
    } else {
        am as i128
    };
    let bi: i128 = if b.neg {
        -(bm as i128)
    } else {
        bm as i128
    };
    proof {
        assert((-(a.mant as int)) * (pa as int) == -((a.mant as int) * (pa as int)))
            by (nonlinear_arith);
        assert((-(b.mant as int)) * (pb as int) == -((b.mant as int) * (pb as int)))
            by (nonlinear_arith);
        assert(ai == a.num() * pow10(b.scale as nat));
        assert(bi == b.num() * pow10(a.scale as nat));
    }
    ai < bi
}

/// The change column of a report, in hundredths, computed exactly.
pub fn change_hundredths_i128(last: &Dec, open: &Dec) -> (r: i128)
    requires
        last.wf(),
        open.wf(),
        open.mant != 0,
    ensures
        r == change_hundredths(last.num(), last.scale as nat, open.num(), open.scale as nat),
        r != i128::MIN,
{
    let pl = pow10_u64(open.scale);
    let po = pow10_u64(last.scale);
    proof {
        lemma_pow10_mono(open.scale as nat, 15);
        lemma_pow10_mono(last.scale as nat, 15);
        lemma_pow10_pos(open.scale as nat);
        lemma_pow10_pos(last.scale as nat);
        reveal_with_fuel(pow10, 16);
        assert((last.mant as int) * (pl as int) <= 1000000000000000int * 1000000000000000int
            && (last.mant as int) * (pl as int) >= 0) by (nonlinear_arith)
            requires
                0 <= last.mant as int <= 1000000000000000int,
                0 <= pl as int <= 1000000000000000int,
        ;
        assert((open.mant as int) * (po as int) <= 1000000000000000int * 1000000000000000int
            && (open.mant as int) * (po as int) >= 1) by (nonlinear_arith)
            requires
                1 <= open.mant as int <= 1000000000000000int,
                1 <= po as int <= 1000000000000000int,
        ;
    }
    let lm = (last.mant as u128) * (pl as u128);
    let om = (open.mant as u128) * (po as u128);
    let li: i128 = if last.neg {
        -(lm as i128)
    } else {
        lm as i128
    };
    let oi: i128 = if open.neg {
        -(om as i128)
    } else {
        om as i128
    };
    let diff: i128 = li - oi;
    let n: i128 = 10100 * diff;
    let an: u128 = if n < 0 {
        (-n) as u128
    } else {
        n as u128
    };
    let q: u128 = (2 * an + om) / (2 * om);
    proof {
        assert((-(last.mant as int)) * (pl as int) == -((last.mant as int) * (pl as int)))
            by (nonlinear_arith);
        assert((-(open.mant as int)) * (po as int) == -((open.mant as int) * (po as int)))
            by (nonlinear_arith);
        assert(li == last.num() * pow10(open.scale as nat));
        assert(oi == open.num() * pow10(last.scale as nat));
        assert(an == abs_int(10100 * (li as int - oi as int)));
        assert(om == abs_int(oi as int));
        assert(q == (2 * abs_int(10100 * (li as int - oi as int)) + abs_int(oi as int)) / (2 * abs_int(oi as int)));
    }
    if (n < 0) != (oi < 0) {
        -(q as i128)
    } else {
        q as i128
    }
}

pub open spec fn digit_char(d: int) -> char {
    if d == 0 {
        '0'
    } else if d == 1 {
        '1'
    } else if d == 2 {
        '2'
    } else if d == 3 {
        '3'
    } else if d == 4 {
        '4'
    } else if d == 5 {
        '5'
    } else if d == 6 {
        '6'
    } else if d == 7 {
        '7'
    } else if d == 8 {
        '8'
    } else {
        '9'
    }
}

/// Decimal digits of `n`, most significant first, no leading zeros.
pub open spec fn digits_of(n: nat) -> Seq<char>
    decreases n,
{
    if n < 10 {
        seq![digit_char(n as int)]
    } else {
        digits_of(n / 10) + seq![digit_char((n % 10) as int)]
    }
}

/// Exactly `width` digits of `n`, zero-padded at the front.
pub open spec fn padded_digits(n: nat, width: nat) -> Seq<char>
    decreases width,
{
    if width == 0 {
        Seq::empty()
    } else {
        padded_digits(n / 10, (width - 1) as nat) + seq![digit_char((n % 10) as int)]
    }
}

/// Mantissa and scale with the trailing fractional zeros removed.
pub open spec fn trim_zeros(m: nat, s: nat) -> (nat, nat)
    decreases s,
{
    if s == 0 {
        (m, 0nat)
    } else if m % 10 == 0 {
        trim_zeros(m / 10, (s - 1) as nat)
    } else {
        (m, s)
    }
}

/// Canonical text of a decimal value: optional sign, bare integer part,
/// fraction without trailing zeros, no point when the fraction is empty,
/// and plain `0` for a zero value.
pub open spec fn dec_canon(neg: bool, m: nat, s: nat) -> Seq<char> {
    let t = trim_zeros(m, s);
    let sign: Seq<char> = if neg && t.0 > 0 {
        seq!['-']
    } else {
        Seq::empty()
    };
    if t.1 == 0 {
        sign + digits_of(t.0)
    } else {
        sign + digits_of(t.0 / (pow10(t.1) as nat)) + seq!['.'] + padded_digits(
            t.0 % (pow10(t.1) as nat),
            t.1,
        )
    }
}

/// Canonical text of the value a decimal string denotes.
pub open spec fn dec_canon_of(s: Seq<char>) -> Seq<char> {
    dec_canon(dec_is_neg(s), mant_of(dec_body(s)) as nat, scale_of(dec_body(s)))
}

/// Text of a signed count of hundredths with two digits behind the point,
/// the form the change column is printed in.
pub open spec fn hundredths_str(c: int) -> Seq<char> {
    let a = abs_int(c) as nat;
    let sign: Seq<char> = if c < 0 {
        seq!['-']
    } else {
        Seq::empty()
    };
    sign + digits_of(a / 100) + seq!['.'] + padded_digits(a % 100, 2)
}

fn digit_str(d: u64) -> (r: &'static str)
    requires
        d < 10,
    ensures
        r@ == seq![digit_char(d as int)],
{
    proof {
        reveal_strlit("0");
        reveal_strlit("1");
        reveal_strlit("2");
        reveal_strlit("3");
        reveal_strlit("4");
        reveal_strlit("5");
        reveal_strlit("6");
        reveal_strlit("7");
        reveal_strlit("8");
        reveal_strlit("9");
        assert("0"@ =~= seq!['0']);
        assert("1"@ =~= seq!['1']);
        assert("2"@ =~= seq!['2']);
        assert("3"@ =~= seq!['3']);
        assert("4"@ =~= seq!['4']);
        assert("5"@ =~= seq!['5']);
        assert("6"@ =~= seq!['6']);
        assert("7"@ =~= seq!['7']);
        assert("8"@ =~= seq!['8']);
        assert("9"@ =~= seq!['9']);
    }
    match d {
        0 => "0",
        1 => "1",
        2 => "2",
        3 => "3",
        4 => "4",
        5 => "5",
        6 => "6",
        7 => "7",
        8 => "8",
        _ => "9",
    }
}

fn fmt_u128(n: u128) -> (r: String)
    ensures
        r@ == digits_of(n as nat),
    decreases n,
{
    if n < 10 {
        let s = digit_str(n as u64);
        String::from_str(s)
    } else {
        let mut s = fmt_u128(n / 10);
        s.append(digit_str((n % 10) as u64));
        s
    }
}

fn fmt_padded(n: u64, width: u32) -> (r: String)
    ensures
        r@ == padded_digits(n as nat, width as nat),
    decreases width,
{
    if width == 0 {
        let r = String::new();
        proof {
            assert(r@ =~= padded_digits(n as nat, 0));
        }
        r
    } else {
        let mut s = fmt_padded(n / 10, width - 1);
        s.append(digit_str(n % 10));
        s
    }
}

/// The price column: canonical text of a parsed decimal.
pub fn format_dec(d: &Dec) -> (r: String)
    requires
        d.wf(),
    ensures
        r@ == dec_canon(d.neg, d.mant as nat, d.scale as nat),
{
    let mut m: u64 = d.mant;
    let mut s: u32 = d.scale;
    while s > 0 && m % 10 == 0
        invariant
            m < 1000000000000000,
            s <= 15,
            trim_zeros(d.mant as nat, d.scale as nat) == trim_zeros(m as nat, s as nat),
        decreases s,
    {
        m = m / 10;
        s = s - 1;
    }
    let ghost t = trim_zeros(d.mant as nat, d.scale as nat);
    proof {
        assert(t == (m as nat, s as nat));
        reveal_strlit("-");
        assert("-"@ =~= seq!['-']);
        reveal_strlit(".");
        assert("."@ =~= seq!['.']);
    }
    let mut out = String::new();
    if d.neg && m > 0 {
        out.append("-");
    }
    if s == 0 {
        let ds = fmt_u128(m as u128);
        out.append(ds.as_str());
        proof {
            assert(out@ =~= dec_canon(d.neg, d.mant as nat, d.scale as nat));
        }
    } else {
        let p = pow10_u64(s);
        proof {
            lemma_pow10_pos(s as nat);
        }
        let ip = fmt_u128((m / p) as u128);
        out.append(ip.as_str());
        out.append(".");
        let fp = fmt_padded(m % p, s);
        out.append(fp.as_str());
        proof {
            assert(out@ =~= dec_canon(d.neg, d.mant as nat, d.scale as nat));
        }
    }
    out
}

/// The change column: text of a signed count of hundredths.
pub fn format_hundredths(c: i128) -> (r: String)
    requires
        c != i128::MIN,
    ensures
        r@ == hundredths_str(c as int),
{
    proof {
        reveal_strlit("-");
        assert("-"@ =~= seq!['-']);
        reveal_strlit(".");
        assert("."@ =~= seq!['.']);
    }
    let a: u128 = if c < 0 {
        (-c) as u128
    } else {
        c as u128
    };
    let mut out = String::new();
    if c < 0 {
        out.append("-");
    }
    let ip = fmt_u128(a / 100);
    out.append(ip.as_str());
    out.append(".");
    let fp = fmt_padded((a % 100) as u64, 2);
    out.append(fp.as_str());
    proof {
        assert(out@ =~= hundredths_str(c as int));
    }
    out
}

} // verus!
