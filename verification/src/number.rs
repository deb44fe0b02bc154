//! Decimal port numbers: `u16` parsing as `str::parse::<u16>` does it, and
//! formatting as `u16::to_string` does it.

use vstd::prelude::*;
use crate::text::push_char;

verus! {

/// An ASCII decimal digit.
pub open spec fn is_digit(c: char) -> bool {
    '0' <= c && c <= '9'
}

/// The value of a decimal digit.
pub open spec fn digit_value(c: char) -> int {
    (c as u32) - ('0' as u32)
}

/// The character of a digit value `d < 10`.
pub open spec fn digit_char(d: nat) -> char {
    (48 + d) as char
}

/// The value of a string of decimal digits (0 for the empty string).
pub open spec fn decimal_value(d: Seq<char>) -> int
    decreases d.len(),
{
    if d.len() == 0 {
        0
    } else {
        decimal_value(d.drop_last()) * 10 + digit_value(d.last())
    }
}

/// The text after one optional leading `+`.
pub open spec fn unsigned_digits(s: Seq<char>) -> Seq<char> {
    if s.len() > 0 && s[0] == '+' {
        s.drop_first()
    } else {
        s
    }
}

/// What `str::parse::<u16>` returns: one optional leading `+`, then at least one ASCII
/// digit and nothing else, with a value that fits in `u16`.
pub open spec fn parse_u16(s: Seq<char>) -> Option<u16> {
    let d = unsigned_digits(s);
    if d.len() > 0 && (forall|k: int| 0 <= k < d.len() ==> is_digit(#[trigger] d[k]))
        && decimal_value(d) <= u16::MAX {
        Some(decimal_value(d) as u16)
    } else {
        None
    }
}

/// The shortest decimal representation of `n`, as `to_string` writes it.
pub open spec fn decimal_string(n: nat) -> Seq<char>
    decreases n,
{
    if n < 10 {
        seq![digit_char(n)]
    } else {
        decimal_string(n / 10).push(digit_char(n % 10))
    }
}

proof fn lemma_decimal_value_nonneg(d: Seq<char>)
    requires
        forall|k: int| 0 <= k < d.len() ==> is_digit(#[trigger] d[k]),
    ensures
        decimal_value(d) >= 0,
    decreases d.len(),
{
    if d.len() > 0 {
        lemma_decimal_value_nonneg(d.drop_last());
        assert(is_digit(d[d.len() - 1]));
    }
}

/// A digit string is worth at least as much as any of its prefixes.
proof fn lemma_decimal_value_prefix(d: Seq<char>, k: int)
    requires
        0 <= k <= d.len(),
        forall|i: int| 0 <= i < d.len() ==> is_digit(#[trigger] d[i]),
    ensures
        decimal_value(d.take(k)) <= decimal_value(d),
    decreases d.len(),
{
    if k < d.len() {
        let e = d.drop_last();
        assert forall|i: int| 0 <= i < e.len() implies is_digit(#[trigger] e[i]) by {
            assert(e[i] == d[i]);
        }
        lemma_decimal_value_prefix(e, k);
        assert(e.take(k) =~= d.take(k));
        lemma_decimal_value_nonneg(e);
        assert(is_digit(d[d.len() - 1]));
    } else {
        assert(d.take(k) =~= d);
    }
}

/// Parse a port number as `str::parse::<u16>` does.
pub fn parse_port(s: &[char]) -> (r: Option<u16>)
    ensures
        r == parse_u16(s@),
{
    let start: usize = if s.len() > 0 && s[0] == '+' {
        1
    } else {
        0
    };
    let ghost d = s@.skip(start as int);
    assert(d =~= unsigned_digits(s@));
    if start == s.len() {
        return None;
    }
    let mut v: u32 = 0;
    let mut i = start;
    while i < s.len()
        invariant
            start <= i <= s.len(),
            d == s@.skip(start as int),
            d == unsigned_digits(s@),
            forall|k: int| 0 <= k < i - start ==> is_digit(#[trigger] d[k]),
            v == decimal_value(d.take(i - start)),
            v <= u16::MAX,
        decreases s.len() - i,
    {
        let c = s[i];
        assert(c == d[i - start]);
        if !('0' <= c && c <= '9') {
            assert(!is_digit(d[i - start]));
            return None;
        }
        let nv = v * 10 + ((c as u32) - ('0' as u32));
        assert(d.take(i - start + 1).drop_last() =~= d.take(i - start));
        assert(nv == decimal_value(d.take(i - start + 1)));
        if nv > 65535 {
            proof {
                if forall|k: int| 0 <= k < d.len() ==> is_digit(#[trigger] d[k]) {
                    lemma_decimal_value_prefix(d, i - start + 1);
                    assert(decimal_value(d) > u16::MAX);
                }
            }
            return None;
        }
        v = nv;
        i += 1;
    }
    assert(d.take(i - start) =~= d);
    Some(v as u16)
}

/// Append the decimal representation of `n` to `s`.
pub fn push_decimal(s: &mut String, n: u16)
    ensures
        final(s)@ == old(s)@ + decimal_string(n as nat),
    decreases n,
{
    if n >= 10 {
        push_decimal(s, n / 10);
    }
    let d: u8 = (n % 10) as u8;
    let c = (d + 48) as char;
    assert(c == digit_char((n % 10) as nat));
    push_char(s, c);
    if n >= 10 {
        assert(decimal_string(n as nat) == decimal_string((n / 10) as nat).push(c));
    } else {
        assert(decimal_string(n as nat) == seq![c]);
    }
}

/// What `to_string` writes is read back by `parse`: `"{n}".parse::<u16>() == Ok(n)`.
pub proof fn lemma_parse_decimal_string(n: u16)
    ensures
        parse_u16(decimal_string(n as nat)) == Some(n),
{
    lemma_decimal_string(n as nat);
    let d = decimal_string(n as nat);
    assert(is_digit(d[0]));
}

pub proof fn lemma_decimal_string(n: nat)
    ensures
        decimal_string(n).len() > 0,
        forall|k: int| 0 <= k < decimal_string(n).len() ==> is_digit(#[trigger] decimal_string(n)[k]),
        decimal_value(decimal_string(n)) == n,
    decreases n,
{
    let c = digit_char(n % 10);
    assert(digit_value(c) == n % 10);
    if n >= 10 {
        lemma_decimal_string(n / 10);
        assert(n == (n / 10) * 10 + n % 10);
        let p = decimal_string(n / 10);
        let d = decimal_string(n);
        assert(d == p.push(digit_char(n % 10)));
        assert(d.drop_last() =~= p);
        assert(d.last() == c);
        assert(decimal_value(d) == decimal_value(p) * 10 + digit_value(c));
        assert(decimal_value(d) == n);
        assert forall|k: int| 0 <= k < d.len() implies is_digit(#[trigger] d[k]) by {
            if k < p.len() {
                assert(d[k] == p[k]);
            }
        }
    } else {
        assert(decimal_string(n) =~= seq![c]);
        assert(decimal_string(n).drop_last() =~= Seq::<char>::empty());
        assert(decimal_value(Seq::<char>::empty()) == 0);
        assert(decimal_value(decimal_string(n)) == 0 * 10 + digit_value(c));
    }
}

} // verus!
