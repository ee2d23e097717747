//! Property values as text: numbers in decimal, texts in quotes, time stamps as seconds and
//! a nineteen-digit fraction.
use vstd::prelude::*;
use crate::datatypes::{decimal_chars, digit_char, PropertyModel, PropertyValue};
use crate::path::push_char;
use crate::bench::{digits_value, is_digit};

verus! {

/// The decimal notation of `v`, with a leading minus sign where it is negative.
pub open spec fn signed_chars(v: int) -> Seq<char> {
    if v < 0 {
        seq!['-'] + decimal_chars((-v) as nat)
    } else {
        decimal_chars(v as nat)
    }
}

/// `n` zeros.
pub open spec fn zeros(n: nat) -> Seq<char> {
    Seq::new(n, |_i: int| '0')
}

/// The decimal notation of `v`, with zeros before it up to `w` characters.
pub open spec fn padded_chars(v: nat, w: nat) -> Seq<char> {
    let d = decimal_chars(v);
    if d.len() < w {
        zeros((w - d.len()) as nat) + d
    } else {
        d
    }
}

/// The text of a property value; none for the floating-point ones.
pub open spec fn value_text(v: PropertyModel) -> Option<Seq<char>> {
    match v {
        PropertyModel::I8(x) => Some(signed_chars(x as int)),
        PropertyModel::I16(x) => Some(signed_chars(x as int)),
        PropertyModel::I32(x) => Some(signed_chars(x as int)),
        PropertyModel::I64(x) => Some(signed_chars(x as int)),
        PropertyModel::U8(x) => Some(decimal_chars(x as nat)),
        PropertyModel::U16(x) => Some(decimal_chars(x as nat)),
        PropertyModel::U32(x) => Some(decimal_chars(x as nat)),
        PropertyModel::U64(x) => Some(decimal_chars(x as nat)),
        PropertyModel::Float(_) => None,
        PropertyModel::Double(_) => None,
        PropertyModel::String(s) => Some(seq!['"'] + s + seq!['"']),
        PropertyModel::Boolean(b) => Some(if b { "true"@ } else { "false"@ }),
        PropertyModel::TimeStamp((secs, frac)) => Some(signed_chars(secs as int) + seq!['.'] + padded_chars(frac as nat, 19)),
    }
}

/// The digit character for `d`.
fn digit(d: u64) -> (c: char)
    requires
        d < 10,
    ensures
        c == digit_char(d as nat),
{
    match d {
        0 => '0',
        1 => '1',
        2 => '2',
        3 => '3',
        4 => '4',
        5 => '5',
        6 => '6',
        7 => '7',
        8 => '8',
        _ => '9',
    }
}

/// Appends the decimal notation of `v`.
pub fn push_decimal(s: &mut String, v: u64)
    ensures
        final(s)@ == old(s)@ + decimal_chars(v as nat),
    decreases v,
{
    if v >= 10 {
        push_decimal(s, v / 10);
    }
    push_char(s, digit(v % 10));
    proof {
        if v >= 10 {
            assert(decimal_chars(v as nat) == decimal_chars((v / 10) as nat).push(digit_char((v % 10) as nat)));
            assert(s@ =~= old(s)@ + decimal_chars(v as nat));
        } else {
            assert(decimal_chars(v as nat) == seq![digit_char(v as nat)]);
            assert(s@ =~= old(s)@ + decimal_chars(v as nat));
        }
    }
}

/// The number of decimal digits of `v`.
fn digit_count(v: u64) -> (r: u64)
    ensures
        r == decimal_chars(v as nat).len(),
        r <= 20,
    decreases v,
{
    if v >= 10 {
        let n = digit_count(v / 10);
        proof {
            assert(decimal_chars(v as nat) == decimal_chars((v / 10) as nat).push(digit_char((v % 10) as nat)));
            if n == 20 {
                lemma_twenty_digits((v / 10) as nat);
            }
        }
        n + 1
    } else {
        1
    }
}

/// A number with twenty or more decimal digits is at least 10^19.
proof fn lemma_twenty_digits(v: nat)
    ensures
        decimal_chars(v).len() >= 20 ==> v >= 10_000_000_000_000_000_000,
{
    lemma_digits_bound(v, 19);
    assert(pow10(19) == 10_000_000_000_000_000_000) by {
        reveal_with_fuel(pow10, 20);
    }
}

/// A number with more than `k > 0` decimal digits is at least 10^k.
proof fn lemma_digits_bound(v: nat, k: nat)
    ensures
        k > 0 && decimal_chars(v).len() > k ==> v >= pow10(k),
    decreases k,
{
    if k > 0 && decimal_chars(v).len() > k {
        if v < 10 {
            assert(decimal_chars(v).len() == 1);
        }
        assert(decimal_chars(v).len() == decimal_chars(v / 10).len() + 1);
        if k == 1 {
            assert(pow10(1) == 10) by {
                reveal_with_fuel(pow10, 2);
            }
        } else {
            lemma_digits_bound(v / 10, (k - 1) as nat);
            let q = v / 10;
            let p = pow10((k - 1) as nat);
            assert(q >= p ==> v >= 10 * p) by (nonlinear_arith)
                requires
                    q == v / 10,
                    v >= 10,
            ;
        }
    }
}

/// 10^k.
pub open spec fn pow10(k: nat) -> nat
    decreases k,
{
    if k == 0 {
        1
    } else {
        10 * pow10((k - 1) as nat)
    }
}

/// Appends the decimal notation of `v`, signed.
pub fn push_signed(s: &mut String, v: i64)
    ensures
        final(s)@ == old(s)@ + signed_chars(v as int),
{
    if v < 0 {
        push_char(s, '-');
        let m: u64 = if v == i64::MIN { 9_223_372_036_854_775_808u64 } else { (-v) as u64 };
        push_decimal(s, m);
        proof {
            assert(s@ =~= old(s)@ + signed_chars(v as int));
        }
    } else {
        push_decimal(s, v as u64);
    }
}

/// Appends the characters of `t`.
fn push_str(s: &mut String, t: &str)
    ensures
        final(s)@ == old(s)@ + t@,
{
    s.append(t);
}

impl PropertyValue {
    /// The value as text: integers in decimal, texts in double quotes, `true` or `false`,
    /// and a time stamp as its seconds, a dot and its fraction in nineteen digits. The
    /// floating-point values have none here: their decimal text depends on floating-point
    /// arithmetic.
    pub fn text(&self) -> (r: Option<String>)
        ensures
            r matches Some(t) ==> value_text(self@) == Some(t@),
            r is None ==> value_text(self@) is None,
    {
        let mut s = String::new();
        match self {
            PropertyValue::I8(x) => push_signed(&mut s, *x as i64),
            PropertyValue::I16(x) => push_signed(&mut s, *x as i64),
            PropertyValue::I32(x) => push_signed(&mut s, *x as i64),
            PropertyValue::I64(x) => push_signed(&mut s, *x),
            PropertyValue::U8(x) => push_decimal(&mut s, *x as u64),
            PropertyValue::U16(x) => push_decimal(&mut s, *x as u64),
            PropertyValue::U32(x) => push_decimal(&mut s, *x as u64),
            PropertyValue::U64(x) => push_decimal(&mut s, *x),
            PropertyValue::Float(_) => return None,
            PropertyValue::Double(_) => return None,
            PropertyValue::String(t) => {
                push_char(&mut s, '"');
                push_str(&mut s, t.as_str());
                push_char(&mut s, '"');
                assert(s@ =~= seq!['"'] + t@ + seq!['"']);
            },
            PropertyValue::Boolean(b) => {
                if *b {
                    push_str(&mut s, "true");
                } else {
                    push_str(&mut s, "false");
                }
                proof {
                    reveal_strlit("true");
                    reveal_strlit("false");
                }
                assert(s@ =~= (if *b { "true"@ } else { "false"@ }));
            },
            PropertyValue::TimeStamp((secs, frac)) => {
                push_signed(&mut s, *secs);
                push_char(&mut s, '.');
                let ghost before = s@;
                let n = digit_count(*frac);
                let mut i: u64 = n;
                while i < 19
                    invariant
                        n <= i <= 19 || (n > 19 && i == n),
                        n == decimal_chars(*frac as nat).len(),
                        s@ == before + zeros((i - n) as nat),
                    decreases 19 - i,
                {
                    push_char(&mut s, '0');
                    assert(zeros((i + 1 - n) as nat) =~= zeros((i - n) as nat).push('0'));
                    i = i + 1;
                }
                push_decimal(&mut s, *frac);
                proof {
                    if n < 19 {
                        assert(i == 19);
                    } else {
                        assert(zeros((i - n) as nat) =~= Seq::<char>::empty());
                    }
                    assert(s@ =~= signed_chars(*secs as int) + seq!['.'] + padded_chars(*frac as nat, 19));
                }
            },
        }
        Some(s)
    }
}

/// Whether every character of `d` is a decimal digit.
pub open spec fn all_digits(d: Seq<char>) -> bool {
    forall|k: int| 0 <= k < d.len() ==> is_digit(#[trigger] d[k])
}

/// Whether `t` is the standard decimal text of `x`: a minus sign exactly when `x` is
/// negative, then one or more decimal digits, without leading zeros, whose value is the
/// magnitude of `x`.
pub open spec fn writes_integer(t: Seq<char>, x: int) -> bool {
    let d = if x < 0 { t.drop_first() } else { t };
    &&& (x < 0 <==> (t.len() > 0 && t[0] == '-'))
    &&& d.len() > 0
    &&& all_digits(d)
    &&& (d.len() > 1 ==> d[0] != '0')
    &&& digits_value(d) == if x < 0 { -x } else { x }
}

/// The digit character for `d < 10` is a decimal digit of value `d`.
pub proof fn lemma_digit_char(d: nat)
    requires
        d < 10,
    ensures
        is_digit(digit_char(d)),
        (digit_char(d) as nat) - ('0' as nat) == d,
        digit_char(d) == '0' <==> d == 0,
{
    assert(d % 10 == d);
    assert(d == 0 || d == 1 || d == 2 || d == 3 || d == 4 || d == 5 || d == 6 || d == 7 || d == 8 || d == 9);
}

/// The decimal notation of `v` is one or more digits, without leading zeros, whose value is
/// `v`.
pub proof fn lemma_decimal_chars(v: nat)
    ensures
        decimal_chars(v).len() > 0,
        forall|k: int| 0 <= k < decimal_chars(v).len() ==> is_digit(#[trigger] decimal_chars(v)[k]),
        decimal_chars(v).len() > 1 ==> decimal_chars(v)[0] != '0',
        digits_value(decimal_chars(v)) == v,
    decreases v,
{
    let d = decimal_chars(v);
    lemma_digit_char(v % 10);
    if v < 10 {
        assert(d == seq![digit_char(v)]);
        assert(d.drop_last() =~= Seq::<char>::empty());
        assert(d.last() == digit_char(v));
        assert(digits_value(d) == digits_value(d.drop_last()) * 10 + ((d.last() as nat) - ('0' as nat)) as nat);
    } else {
        lemma_decimal_chars(v / 10);
        let e = decimal_chars(v / 10);
        assert(d == e.push(digit_char(v % 10)));
        assert(d.drop_last() =~= e);
        assert(d.last() == digit_char(v % 10));
        assert(d[0] == e[0]);
        assert(v == (v / 10) * 10 + v % 10);
        assert(digits_value(d) == digits_value(d.drop_last()) * 10 + ((d.last() as nat) - ('0' as nat)) as nat);
        if v / 10 < 10 {
            lemma_digit_char(v / 10);
            assert(e == seq![digit_char(v / 10)]);
        } else {
            lemma_decimal_chars(v / 100);
            assert((v / 10) / 10 == v / 100);
            assert(e == decimal_chars(v / 100).push(digit_char((v / 10) % 10)));
        }
        assert forall|k: int| 0 <= k < d.len() implies is_digit(#[trigger] d[k]) by {
            if k < e.len() {
                assert(d[k] == e[k]);
            }
        }
    }
}

/// The signed decimal notation of `x` is its standard decimal text.
pub proof fn lemma_signed_chars(x: int)
    ensures
        writes_integer(signed_chars(x), x),
{
    if x < 0 {
        lemma_decimal_chars((-x) as nat);
        let t = signed_chars(x);
        assert(t.drop_first() =~= decimal_chars((-x) as nat));
    } else {
        lemma_decimal_chars(x as nat);
        let d = decimal_chars(x as nat);
        lemma_digit_char(0);
        if d.len() > 0 && d[0] == '-' {
            assert(is_digit(d[0]));
        }
    }
}

/// Zeros before digits leave their value as it is.
pub proof fn lemma_leading_zeros(k: nat, d: Seq<char>)
    ensures
        digits_value(zeros(k) + d) == digits_value(d),
    decreases d.len(), k,
{
    if d.len() == 0 {
        assert(zeros(k) + d =~= zeros(k));
        if k > 0 {
            assert(zeros(k).drop_last() =~= zeros((k - 1) as nat));
            lemma_leading_zeros((k - 1) as nat, d);
            assert(zeros((k - 1) as nat) + d =~= zeros((k - 1) as nat));
        }
    } else {
        assert((zeros(k) + d).drop_last() =~= zeros(k) + d.drop_last());
        lemma_leading_zeros(k, d.drop_last());
    }
}

/// The fraction's text in at least `w` digits is digits whose value is the fraction.
pub proof fn lemma_padded_chars(v: nat, w: nat)
    ensures
        padded_chars(v, w).len() >= w,
        padded_chars(v, w).len() > 0,
        forall|k: int| 0 <= k < padded_chars(v, w).len() ==> is_digit(#[trigger] padded_chars(v, w)[k]),
        digits_value(padded_chars(v, w)) == v,
{
    lemma_decimal_chars(v);
    let d = decimal_chars(v);
    if d.len() < w {
        let z = zeros((w - d.len()) as nat);
        lemma_leading_zeros((w - d.len()) as nat, d);
        assert forall|k: int| 0 <= k < (z + d).len() implies is_digit(#[trigger] (z + d)[k]) by {
            if k >= z.len() {
                assert((z + d)[k] == d[k - z.len()]);
            }
        }
    }
}

} // verus!
