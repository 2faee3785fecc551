//! Numbers and fields in the text of paths.
use vstd::prelude::*;

verus! {

/// The value of an ASCII digit: `0`-`9`, then `a`-`z` or `A`-`Z` from 10 on;
/// 36 for any other byte.
pub open spec fn digit_value(c: u8) -> nat {
    if 48 <= c <= 57 {
        (c - 48) as nat
    } else if 97 <= c <= 122 {
        (c - 87) as nat
    } else if 65 <= c <= 90 {
        (c - 55) as nat
    } else {
        36
    }
}

/// The value of a string of digits in base `radix`.
pub open spec fn digits_value(s: Seq<u8>, radix: nat) -> nat
    decreases s.len(),
{
    if s.len() == 0 {
        0
    } else {
        digits_value(s.drop_last(), radix) * radix + digit_value(s.last())
    }
}

pub open spec fn is_digit(c: u8, radix: nat) -> bool {
    digit_value(c) < radix
}

/// The unsigned number that `s` spells in base `radix`: an optional `+`,
/// then one or more digits.
pub open spec fn parse_number(s: Seq<u8>, radix: nat) -> Option<nat> {
    if unsigned_part(s).len() > 0 && all_digits(unsigned_part(s), radix) {
        Some(digits_value(unsigned_part(s), radix))
    } else {
        None
    }
}

/// `s` without a leading `+`.
pub open spec fn unsigned_part(s: Seq<u8>) -> Seq<u8> {
    if s.len() > 0 && s[0] == 43 {
        s.drop_first()
    } else {
        s
    }
}

pub open spec fn all_digits(d: Seq<u8>, radix: nat) -> bool {
    forall|i: int| 0 <= i < d.len() ==> is_digit(#[trigger] d[i], radix)
}

fn digit_of(c: u8) -> (r: u8)
    ensures
        r == digit_value(c),
{
    if 48 <= c && c <= 57 {
        c - 48
    } else if 97 <= c && c <= 122 {
        c - 87
    } else if 65 <= c && c <= 90 {
        c - 55
    } else {
        36
    }
}

/// The number that `s` spells in base `radix`, when it is below `bound`.
pub fn parse_below(s: &[u8], radix: usize, bound: usize) -> (r: Option<usize>)
    requires
        2 <= radix <= 36,
    ensures
        r matches Some(v) ==> parse_number(s@, radix as nat) == Some(v as nat) && v < bound,
        r is None ==> !(parse_number(s@, radix as nat) matches Some(v) && v < bound),
{
    let start: usize = if s.len() > 0 && s[0] == 43 {
        1
    } else {
        0
    };
    let ghost d = s@.subrange(start as int, s@.len() as int);
    assert(d =~= unsigned_part(s@));
    if start >= s.len() || bound == 0 {
        return None;
    }
    let mut acc: usize = 0;
    let mut big = false;
    let mut i: usize = start;
    while i < s.len()
        invariant
            2 <= radix <= 36,
            start <= i <= s.len(),
            d == s@.subrange(start as int, s@.len() as int),
            d == unsigned_part(s@),
            forall|k: int| start <= k < i ==> is_digit(#[trigger] s@[k], radix as nat),
            !big ==> acc == digits_value(d.subrange(0, i - start), radix as nat) && acc < bound,
            big ==> digits_value(d.subrange(0, i - start), radix as nat) >= bound,
        decreases s.len() - i,
    {
        let c = s[i];
        let digit = digit_of(c) as usize;
        if digit >= radix {
            assert(d[i - start] == s@[i as int]);
            assert(!is_digit(d[i - start], radix as nat));
            return None;
        }
        assert(d.subrange(0, i + 1 - start).drop_last() =~= d.subrange(0, i - start));
        proof {
            let prev = digits_value(d.subrange(0, i - start), radix as nat);
            assert(prev * radix + digit >= prev) by (nonlinear_arith)
                requires
                    digit >= 0,
                    radix >= 2,
            ;
        }
        if !big {
            if digit >= bound || acc > (bound - 1 - digit) / radix {
                assert(acc * radix + digit >= bound) by (nonlinear_arith)
                    requires
                        digit >= bound || acc > (bound - 1 - digit) / (radix as int),
                        bound >= 1,
                        acc >= 0,
                        radix >= 2,
                ;
                big = true;
            } else {
                assert(acc * radix + digit < bound) by (nonlinear_arith)
                    requires
                        acc <= (bound - 1 - digit) / (radix as int),
                        digit < bound,
                        radix >= 2,
                ;
                acc = acc * radix + digit;
            }
        }
        i = i + 1;
    }
    assert(d.subrange(0, i - start) =~= d);
    assert forall|k: int| 0 <= k < d.len() implies is_digit(#[trigger] d[k], radix as nat) by {
        assert(d[k] == s@[start + k]);
    }
    if big {
        return None;
    }
    Some(acc)
}



/// Position of the first `sep` in `s`, or its length when there is none.
pub open spec fn sep_index(s: Seq<u8>, sep: u8) -> nat
    decreases s.len(),
{
    if s.len() == 0 {
        0
    } else if s[0] == sep {
        0
    } else {
        1 + sep_index(s.drop_first(), sep)
    }
}

/// The part of `s` before the first `sep`, all of it when there is none.
pub open spec fn field(s: Seq<u8>, sep: u8) -> Seq<u8> {
    s.take(sep_index(s, sep) as int)
}

/// The part of `s` after the first `sep`, when there is one.
pub open spec fn after(s: Seq<u8>, sep: u8) -> Option<Seq<u8>> {
    if sep_index(s, sep) < s.len() {
        Some(s.skip(sep_index(s, sep) as int + 1))
    } else {
        None
    }
}

proof fn lemma_sep_index(s: Seq<u8>, sep: u8, i: int)
    requires
        0 <= i <= s.len(),
        forall|j: int| 0 <= j < i ==> s[j] != sep,
        i == s.len() || s[i] == sep,
    ensures
        sep_index(s, sep) == i,
    decreases i,
{
    if i > 0 {
        lemma_sep_index(s.drop_first(), sep, i - 1);
    }
}

/// Splits `s` at its first `sep`: what comes before it, and what comes
/// after it when there is one.
pub fn split_once(s: &[u8], sep: u8) -> (r: (&[u8], Option<&[u8]>))
    ensures
        r.0@ == field(s@, sep),
        r.1 is Some == after(s@, sep) is Some,
        r.1 matches Some(rest) ==> after(s@, sep) == Some(rest@),
{
    let mut i: usize = 0;
    while i < s.len() && s[i] != sep
        invariant
            i <= s.len(),
            forall|j: int| 0 <= j < i ==> s@[j] != sep,
        decreases s.len() - i,
    {
        i = i + 1;
    }
    proof {
        lemma_sep_index(s@, sep, i as int);
    }
    let head = vstd::slice::slice_subrange(s, 0, i);
    if i < s.len() {
        let rest = vstd::slice::slice_subrange(s, i + 1, s.len());
        assert(rest@ =~= s@.skip(i + 1));
        (head, Some(rest))
    } else {
        (head, None)
    }
}

} // verus!
