//! Reading a range of unsigned integers written `a-b`, `a b` or `a`.
use std::ops::RangeInclusive;
use vstd::prelude::*;
use vstd::string::StringSliceAdditionalSpecFns;

verus! {

/// Whether byte `c` is an ASCII decimal digit.
pub open spec fn is_digit(c: u8) -> bool {
    48 <= c <= 57
}

/// Whether byte `c` separates the two bounds of a range: `-` or a space.
pub open spec fn is_separator(c: u8) -> bool {
    c == 45 || c == 32
}

/// The value of a sequence of decimal digits, most significant first.
pub open spec fn digits_value(s: Seq<u8>) -> nat
    decreases s.len(),
{
    if s.len() == 0 {
        0
    } else {
        digits_value(s.drop_last()) * 10 + (s.last() - 48) as nat
    }
}

/// Whether every byte of `d` is a decimal digit.
pub open spec fn all_digits(d: Seq<u8>) -> bool {
    forall|i: int| 0 <= i < d.len() ==> is_digit(#[trigger] d[i])
}

/// `s` without its leading `+`, if it has one.
pub open spec fn sign_stripped(s: Seq<u8>) -> Seq<u8> {
    if s.len() > 0 && s[0] == 43 {
        s.drop_first()
    } else {
        s
    }
}

/// The unsigned integer that `s` writes, as `str::parse` reads it: an
/// optional `+` and one or more decimal digits, worth at most `max`.
pub open spec fn number_of(s: Seq<u8>, max: nat) -> Option<nat> {
    let d = sign_stripped(s);
    if d.len() > 0 && all_digits(d) && digits_value(d) <= max {
        Some(digits_value(d))
    } else {
        None
    }
}

/// Position of the first separator in `s`, or its length if it has none.
pub open spec fn separator_at(s: Seq<u8>) -> nat
    decreases s.len(),
{
    if s.len() == 0 {
        0
    } else if is_separator(s[0]) {
        0
    } else {
        1 + separator_at(s.drop_first())
    }
}

/// The bounds of the range that `s` writes: the numbers before and after its
/// first separator, or the one number of `s` twice if it has none.
pub open spec fn bounds_of(s: Seq<u8>, max: nat) -> Option<(nat, nat)> {
    let i = separator_at(s);
    if i == s.len() {
        match number_of(s, max) {
            Some(v) => Some((v, v)),
            None => None,
        }
    } else {
        match (number_of(s.subrange(0, i as int), max), number_of(s.subrange(i + 1 as int, s.len() as int), max)) {
            (Some(a), Some(b)) => Some((a, b)),
            _ => None,
        }
    }
}

/// A prefix of a sequence of digits is worth no more than the whole.
proof fn lemma_prefix_value(s: Seq<u8>, k: int)
    requires
        0 <= k <= s.len(),
        all_digits(s),
    ensures
        digits_value(s.subrange(0, k)) <= digits_value(s),
    decreases s.len(),
{
    if k == s.len() {
        assert(s.subrange(0, k) =~= s);
    } else {
        let t = s.drop_last();
        lemma_prefix_value(t, k);
        assert(t.subrange(0, k) =~= s.subrange(0, k));
    }
}

/// The first separator stands where a scan that stops at one stops.
proof fn lemma_separator_at(s: Seq<u8>, i: int)
    requires
        0 <= i <= s.len(),
        forall|j: int| 0 <= j < i ==> !is_separator(#[trigger] s[j]),
        i == s.len() || is_separator(s[i]),
    ensures
        separator_at(s) == i,
    decreases i,
{
    if i > 0 {
        let t = s.drop_first();
        assert forall|j: int| 0 <= j < i - 1 implies !is_separator(#[trigger] t[j]) by {
            assert(t[j] == s[j + 1]);
        }
        lemma_separator_at(t, i - 1);
    }
}

/// The number that bytes `from..to` of `b` write, if they write one worth at
/// most `max`.
fn parse_number(b: &[u8], from: usize, to: usize, max: u32) -> (r: Option<u32>)
    requires
        from <= to <= b@.len(),
    ensures
        r is Some ==> number_of(b@.subrange(from as int, to as int), max as nat) == Some(
            r->0 as nat,
        ),
        r is None ==> number_of(b@.subrange(from as int, to as int), max as nat) is None,
{
    let ghost s = b@.subrange(from as int, to as int);
    let mut i = from;
    if i < to && b[i] == 43 {
        i = i + 1;
    }
    let start = i;
    let ghost d = b@.subrange(start as int, to as int);
    assert(d =~= sign_stripped(s));
    if i == to {
        return None;
    }
    let mut value: u64 = 0;
    while i < to
        invariant
            from <= start <= i <= to <= b@.len(),
            d == b@.subrange(start as int, to as int),
            s == b@.subrange(from as int, to as int),
            d == sign_stripped(s),
            d.len() > 0,
            value == digits_value(b@.subrange(start as int, i as int)),
            value <= max,
            forall|j: int| start <= j < i ==> is_digit(#[trigger] b@[j]),
        decreases to - i,
    {
        let c = b[i];
        if !(48 <= c && c <= 57) {
            assert(d[i - start] == c);
            assert(!is_digit(d[i - start]));
            assert(!all_digits(d));
            return None;
        }
        let ghost prefix = b@.subrange(start as int, i as int + 1);
        assert(prefix.drop_last() =~= b@.subrange(start as int, i as int));
        value = value * 10 + (c - 48) as u64;
        if value > max as u64 {
            proof {
                if all_digits(d) {
                    lemma_prefix_value(d, i - start + 1);
                    assert(d.subrange(0, i - start + 1) =~= prefix);
                }
            }
            return None;
        }
        i = i + 1;
    }
    assert(b@.subrange(start as int, i as int) =~= d);
    assert forall|j: int| 0 <= j < d.len() implies is_digit(#[trigger] d[j]) by {
        assert(d[j] == b@[start + j]);
    }
    assert(all_digits(d));
    Some(value as u32)
}

/// The range written `a-b`, `a b` or `a` (meaning `a..=a`), each bound an
/// unsigned decimal number worth at most `max`; `None` if `arg` writes no such
/// range. The first separator splits the bounds, so `1-2-3` writes none.
pub fn parse_range(arg: &str, max: u32) -> (r: Option<RangeInclusive<u32>>)
    ensures
        r is Some <==> bounds_of(arg.spec_bytes(), max as nat) is Some,
        r is Some ==> {
            let (a, b) = bounds_of(arg.spec_bytes(), max as nat)->0;
            &&& !r->0@.exhausted
            &&& r->0@.start == a
            &&& r->0@.end == b
        },
{
    let b = arg.as_bytes();
    let n = b.len();
    let mut i: usize = 0;
    while i < n && b[i] != 45 && b[i] != 32
        invariant
            i <= n,
            n == b@.len(),
            forall|j: int| 0 <= j < i ==> !is_separator(#[trigger] b@[j]),
        decreases n - i,
    {
        i = i + 1;
    }
    proof {
        lemma_separator_at(b@, i as int);
    }
    if i == n {
        assert(b@.subrange(0, n as int) =~= b@);
        match parse_number(b, 0, n, max) {
            Some(v) => Some(RangeInclusive::new(v, v)),
            None => None,
        }
    } else {
        let lo = parse_number(b, 0, i, max);
        let hi = parse_number(b, i + 1, n, max);
        match (lo, hi) {
            (Some(a), Some(c)) => Some(RangeInclusive::new(a, c)),
            _ => None,
        }
    }
}

} // verus!
