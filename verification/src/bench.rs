//! Reading the counts that the benchmark takes on its command line.
use vstd::prelude::*;
use crate::path::chars_of;

verus! {

/// Whether a character is an ASCII decimal digit.
pub open spec fn is_digit(c: char) -> bool {
    '0' <= c && c <= '9'
}

/// The number that a string of decimal digits writes.
pub open spec fn digits_value(d: Seq<char>) -> nat
    decreases d.len(),
{
    if d.len() == 0 {
        0
    } else {
        digits_value(d.drop_last()) * 10 + ((d.last() as nat) - ('0' as nat)) as nat
    }
}

/// The digits of an unsigned number's text, after an optional leading `+`.
pub open spec fn unsigned_digits(s: Seq<char>) -> Seq<char> {
    if s.len() > 0 && s[0] == '+' {
        s.drop_first()
    } else {
        s
    }
}

/// The `usize` that a text writes: an optional `+` followed by one or more decimal digits,
/// whose value fits `usize`; `None` for any other text.
pub open spec fn parsed_usize(s: Seq<char>) -> Option<usize> {
    let d = unsigned_digits(s);
    if d.len() > 0 && (forall|k: int| 0 <= k < d.len() ==> is_digit(#[trigger] d[k])) && digits_value(d) <= usize::MAX {
        Some(digits_value(d) as usize)
    } else {
        None
    }
}

/// Digits after more digits write a number at least as large.
proof fn lemma_digits_value_grows(d: Seq<char>, j: int)
    requires
        0 <= j <= d.len(),
        forall|k: int| 0 <= k < d.len() ==> is_digit(#[trigger] d[k]),
    ensures
        digits_value(d.subrange(0, j)) <= digits_value(d),
    decreases d.len(),
{
    if j < d.len() {
        assert(d.drop_last().subrange(0, j) =~= d.subrange(0, j));
        lemma_digits_value_grows(d.drop_last(), j);
        assert(is_digit(d[d.len() - 1]));
    } else {
        assert(d.subrange(0, j) =~= d);
    }
}

/// Parses a count as `str::parse::<usize>` does (radix 10): an optional `+`, then one or
/// more decimal digits whose value fits `usize`.
fn parse_usize(s: &str) -> (r: Option<usize>)
    ensures
        r == parsed_usize(s@),
{
    let cs = chars_of(s);
    let ghost t = s@;
    let start: usize = if cs.len() > 0 && cs[0] == '+' { 1 } else { 0 };
    let ghost d = unsigned_digits(t);
    assert(d =~= t.subrange(start as int, t.len() as int));
    if start >= cs.len() {
        return None;
    }
    let mut acc: usize = 0;
    let mut i: usize = start;
    while i < cs.len()
        invariant
            cs@ == t,
            t == s@,
            d == unsigned_digits(s@),
            d == t.subrange(start as int, t.len() as int),
            start <= i <= cs@.len(),
            acc == digits_value(d.subrange(0, i - start)),
            forall|k: int| 0 <= k < i - start ==> is_digit(#[trigger] d[k]),
        decreases cs@.len() - i,
    {
        let c = cs[i];
        if !('0' <= c && c <= '9') {
            assert(!is_digit(d[i - start]));
            return None;
        }
        let v = (c as u32 - '0' as u32) as usize;
        assert(d.subrange(0, i + 1 - start).drop_last() =~= d.subrange(0, i - start));
        assert(d.subrange(0, i + 1 - start).last() == c);
        let next = match acc.checked_mul(10) {
            Some(m) => m.checked_add(v),
            None => None,
        };
        match next {
            Some(n) => {
                acc = n;
            },
            None => {
                proof {
                    assert(digits_value(d.subrange(0, i + 1 - start)) == acc * 10 + v);
                    assert(acc * 10 + v > usize::MAX);
                    if forall|k: int| 0 <= k < d.len() ==> is_digit(#[trigger] d[k]) {
                        lemma_digits_value_grows(d, i + 1 - start);
                    }
                }
                return None;
            },
        }
        i = i + 1;
    }
    assert(d.subrange(0, i - start) =~= d);
    Some(acc)
}

/// Reads the argument that follows `args[i]` as a count: gives the position of that argument
/// and its value (`None` where it is not a count), or `None` where no argument follows.
pub fn parse_index_arg(args: &[String], i: usize) -> (r: Option<(usize, Option<usize>)>)
    requires
        i < usize::MAX,
    ensures
        r == (if i + 1 < args@.len() {
            Some(((i + 1) as usize, parsed_usize(args@[i + 1]@)))
        } else {
            None
        }),
{
    if i + 1 < args.len() {
        let next = i + 1;
        Some((next, parse_usize(args[next].as_str())))
    } else {
        None
    }
}

} // verus!
