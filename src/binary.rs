use vstd::prelude::*;

use crate::text::{chars_of, lines, lines_of, views};

verus! {

pub open spec fn is_bit(c: char) -> bool {
    c == '0' || c == '1'
}

pub open spec fn all_bits(s: Seq<char>) -> bool {
    forall|i: int| 0 <= i < s.len() ==> is_bit(#[trigger] s[i])
}

/// The value of a string of binary digits.
pub open spec fn binary(s: Seq<char>) -> nat
    decreases s.len(),
{
    if s.len() == 0 {
        0
    } else {
        binary(s.drop_last()) * 2 + if s.last() == '1' {
            1nat
        } else {
            0nat
        }
    }
}

/// A line read as a base-2 `i32`: an optional sign, then at least one
/// binary digit, with a value that fits.
pub open spec fn binary_i32(s: Seq<char>) -> Option<i32> {
    let signed = s.len() > 0 && (s[0] == '+' || s[0] == '-');
    let digits = if signed {
        s.drop_first()
    } else {
        s
    };
    if digits.len() == 0 || !all_bits(digits) {
        None
    } else if signed && s[0] == '-' {
        if binary(digits) <= 0x8000_0000 {
            Some((0 - binary(digits)) as i32)
        } else {
            None
        }
    } else if binary(digits) <= 0x7FFF_FFFF {
        Some(binary(digits) as i32)
    } else {
        None
    }
}

/// The values of the lines that read as base-2 `i32`s, in order; the
/// others are left out.
pub open spec fn binary_values(ls: Seq<Seq<char>>) -> Seq<i32>
    decreases ls.len(),
{
    if ls.len() == 0 {
        seq![]
    } else {
        binary_values(ls.drop_last()) + match binary_i32(ls.last()) {
            Some(v) => seq![v],
            None => Seq::<i32>::empty(),
        }
    }
}

/// The binary digits `l[start..]` read as a number, when they are binary
/// digits only and the number is at most 2^31.
fn bits_value(l: &Vec<char>, start: usize) -> (r: Option<u64>)
    requires
        start <= l@.len(),
    ensures
        r is Some <==> all_bits(l@.subrange(start as int, l@.len() as int)) && binary(
            l@.subrange(start as int, l@.len() as int),
        ) <= 0x8000_0000,
        r matches Some(v) ==> v == binary(l@.subrange(start as int, l@.len() as int)),
{
    let ghost digits = l@.subrange(start as int, l@.len() as int);
    let mut v: u64 = 0;
    let mut over = false;
    let mut i = start;
    while i < l.len()
        invariant
            start <= i <= l@.len(),
            digits == l@.subrange(start as int, l@.len() as int),
            all_bits(digits.take(i - start)),
            !over ==> v == binary(digits.take(i - start)) && v <= 0x8000_0000,
            over ==> binary(digits.take(i - start)) > 0x8000_0000,
        decreases l@.len() - i,
    {
        let c = l[i];
        if c != '0' && c != '1' {
            assert(!all_bits(digits)) by {
                assert(digits[i - start] == c);
            }
            return None;
        }
        let ghost prev = digits.take(i - start);
        let ghost next = digits.take(i + 1 - start);
        assert(next.drop_last() =~= prev);
        assert(next.last() == c);
        assert(all_bits(next)) by {
            assert forall|j: int| 0 <= j < next.len() implies is_bit(#[trigger] next[j]) by {
                if j < prev.len() {
                    assert(next[j] == prev[j]);
                }
            }
        }
        let bit: u64 = if c == '1' {
            1
        } else {
            0
        };
        if !over {
            if v * 2 + bit > 0x8000_0000 {
                over = true;
            } else {
                v = v * 2 + bit;
            }
        }
        i = i + 1;
    }
    assert(digits.take(i - start) =~= digits);
    if over {
        None
    } else {
        Some(v)
    }
}

/// Reads `l` as a base-2 `i32` (see `binary_i32`).
pub fn parse_binary(l: &Vec<char>) -> (r: Option<i32>)
    ensures
        r == binary_i32(l@),
{
    let n = l.len();
    let signed = n > 0 && (l[0] == '+' || l[0] == '-');
    let negative = signed && l[0] == '-';
    let start: usize = if signed {
        1
    } else {
        0
    };
    let ghost digits = if signed {
        l@.drop_first()
    } else {
        l@
    };
    assert(digits =~= l@.subrange(start as int, n as int));
    if start == n {
        return None;
    }
    match bits_value(l, start) {
        None => None,
        Some(v) => if negative {
            Some((0 - v as i64) as i32)
        } else if v <= 0x7FFF_FFFF {
            Some(v as i32)
        } else {
            None
        },
    }
}

/// The lines of `contents` that read as base-2 `i32`s, as values, in
/// order; every other line, a header too, is skipped.
pub fn solve_binary(contents: &str) -> (r: Vec<i32>)
    ensures
        r@ == binary_values(lines(contents@)),
{
    let t = chars_of(contents);
    let ls = lines_of(&t);
    let ghost lsv = views(ls@);
    let mut r: Vec<i32> = Vec::new();
    let mut i: usize = 0;
    while i < ls.len()
        invariant
            i <= ls@.len(),
            lsv == views(ls@),
            r@ == binary_values(lsv.take(i as int)),
        decreases ls@.len() - i,
    {
        assert(lsv.take(i + 1).drop_last() =~= lsv.take(i as int));
        assert(ls@[i as int]@ == lsv[i as int]);
        match parse_binary(&ls[i]) {
            Some(v) => r.push(v),
            None => {},
        }
        i = i + 1;
    }
    assert(lsv.take(i as int) =~= lsv);
    r
}

} // verus!
