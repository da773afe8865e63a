//! Unsigned integer parsing in a given radix, as the declaration's numeric
//! attributes are written.
use vstd::prelude::*;

verus! {

/// The value of `c` as a digit in `radix`, if it is one: `0`-`9`, then the
/// letters of either case from ten upwards.
pub open spec fn digit_of(c: char, radix: nat) -> Option<nat> {
    let v: int = if '0' <= c && c <= '9' {
        c as int - '0' as int
    } else if 'a' <= c && c <= 'z' {
        c as int - 'a' as int + 10
    } else if 'A' <= c && c <= 'Z' {
        c as int - 'A' as int + 10
    } else {
        36
    };
    if v < radix {
        Some(v as nat)
    } else {
        None
    }
}

/// Every character of `s` is a digit in `radix`.
pub open spec fn all_digits(s: Seq<char>, radix: nat) -> bool {
    forall|i: int| 0 <= i < s.len() ==> (#[trigger] digit_of(s[i], radix)) is Some
}

/// The value of the digit string `s`, most significant digit first.
pub open spec fn digits_value(s: Seq<char>, radix: nat) -> nat
    decreases s.len(),
{
    if s.len() == 0 {
        0
    } else {
        let d = match digit_of(s.last(), radix) {
            Some(d) => d,
            None => 0,
        };
        digits_value(s.drop_last(), radix) * radix + d
    }
}

/// The digits of a numeral: a single leading `+` is dropped when digits follow it.
pub open spec fn numeral_digits(s: Seq<char>) -> Seq<char> {
    if s.len() >= 2 && s[0] == '+' {
        s.drop_first()
    } else {
        s
    }
}

/// The unsigned number that `s` denotes in `radix`, if it is no greater than
/// `max`: an optional `+` and then one or more digits, nothing else.
pub open spec fn parse_unsigned(s: Seq<char>, radix: nat, max: nat) -> Option<nat> {
    let d = numeral_digits(s);
    if d.len() == 0 || !all_digits(d, radix) || digits_value(d, radix) > max {
        None
    } else {
        Some(digits_value(d, radix))
    }
}

/// `s` with every leading `0x` taken off, one after another.
pub open spec fn without_hex_prefix(s: Seq<char>) -> Seq<char>
    decreases s.len(),
{
    if s.len() >= 2 && s[0] == '0' && s[1] == 'x' {
        without_hex_prefix(s.subrange(2, s.len() as int))
    } else {
        s
    }
}

proof fn lemma_value_grows(s: Seq<char>, radix: nat, i: int, j: int)
    requires
        radix >= 1,
        0 <= i <= j <= s.len(),
    ensures
        digits_value(s.subrange(0, i), radix) <= digits_value(s.subrange(0, j), radix),
    decreases j - i,
{
    if i < j {
        lemma_value_grows(s, radix, i, j - 1);
        let p = s.subrange(0, j);
        assert(p.drop_last() =~= s.subrange(0, j - 1));
        let v = digits_value(s.subrange(0, j - 1), radix);
        assert(v * radix >= v) by (nonlinear_arith)
            requires radix >= 1;
    }
}

fn digit_value(c: char, radix: u32) -> (r: Option<u32>)
    requires
        2 <= radix <= 36,
    ensures
        r matches Some(d) ==> digit_of(c, radix as nat) == Some(d as nat),
        r is None ==> digit_of(c, radix as nat) is None,
{
    let v: u32 = if '0' <= c && c <= '9' {
        (c as u32) - ('0' as u32)
    } else if 'a' <= c && c <= 'z' {
        (c as u32) - ('a' as u32) + 10
    } else if 'A' <= c && c <= 'Z' {
        (c as u32) - ('A' as u32) + 10
    } else {
        36
    };
    if v < radix {
        Some(v)
    } else {
        None
    }
}

/// Parses `s` as an unsigned number in `radix` no greater than `max`, as
/// `from_str_radix` reads an unsigned integer.
pub fn parse_number(s: &str, radix: u32, max: u64) -> (r: Option<u64>)
    requires
        2 <= radix <= 36,
    ensures
        r matches Some(v) ==> parse_unsigned(s@, radix as nat, max as nat) == Some(v as nat),
        r is None ==> parse_unsigned(s@, radix as nat, max as nat) is None,
{
    let len = s.unicode_len();
    let mut start: usize = 0;
    if len >= 2 && s.get_char(0) == '+' {
        start = 1;
    }
    let ghost d = numeral_digits(s@);
    assert(d =~= s@.subrange(start as int, len as int));
    if start == len {
        return None;
    }
    let mut value: u64 = 0;
    let mut i: usize = start;
    while i < len
        invariant
            start <= i <= len,
            len == s@.len(),
            d =~= s@.subrange(start as int, len as int),
            d == numeral_digits(s@),
            2 <= radix <= 36,
            value as nat == digits_value(d.subrange(0, i - start), radix as nat),
            value <= max,
            forall|k: int| 0 <= k < i - start ==> (#[trigger] digit_of(d[k], radix as nat)) is Some,
        decreases len - i,
    {
        let c = s.get_char(i);
        let ghost k = i - start;
        assert(d[k as int] == c);
        assert(d.subrange(0, k + 1).drop_last() =~= d.subrange(0, k));
        match digit_value(c, radix) {
            None => {
                assert(digit_of(d[k as int], radix as nat) is None);
                return None;
            },
            Some(dv) => {
                let next = match value.checked_mul(radix as u64) {
                    Some(m) => m.checked_add(dv as u64),
                    None => None,
                };
                match next {
                    Some(n) if n <= max => {
                        value = n;
                    },
                    _ => {
                        proof {
                            assert(digits_value(d.subrange(0, k + 1), radix as nat)
                                == value * radix + dv);
                            assert(value * radix + dv > max);
                            lemma_value_grows(d, radix as nat, k + 1, d.len() as int);
                            assert(d.subrange(0, d.len() as int) =~= d);
                        }
                        return None;
                    },
                }
            },
        }
        i = i + 1;
    }
    assert(d.subrange(0, len - start) =~= d);
    Some(value)
}

/// The number that hexadecimal text `s` denotes, leading `0x` taken off, if
/// it is no greater than `max`.
pub open spec fn hex_value(s: Seq<char>, max: nat) -> Option<nat> {
    parse_unsigned(without_hex_prefix(s), 16, max)
}

/// Parses hexadecimal text, leading `0x` taken off, as a number no greater than `max`.
pub fn parse_hex(s: &str, max: u64) -> (r: Option<u64>)
    ensures
        r matches Some(v) ==> hex_value(s@, max as nat) == Some(v as nat),
        r is None ==> hex_value(s@, max as nat) is None,
{
    parse_number(strip_hex_prefix(s), 16, max)
}

/// Takes off every leading `0x`, as `trim_start_matches("0x")` does.
pub fn strip_hex_prefix(s: &str) -> (r: &str)
    ensures
        r@ == without_hex_prefix(s@),
{
    let len = s.unicode_len();
    let mut i: usize = 0;
    assert(s@.subrange(0, len as int) =~= s@);
    while len - i >= 2 && s.get_char(i) == '0' && s.get_char(i + 1) == 'x'
        invariant
            i <= len,
            len == s@.len(),
            without_hex_prefix(s@.subrange(i as int, len as int)) == without_hex_prefix(s@),
        decreases len - i,
    {
        let ghost t = s@.subrange(i as int, len as int);
        assert(t.subrange(2, t.len() as int) =~= s@.subrange(i + 2, len as int));
        i = i + 2;
    }
    s.substring_char(i, len)
}

} // verus!
