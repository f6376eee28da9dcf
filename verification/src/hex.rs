//! The eight-character hexadecimal fields of a CPIO newc header.

use vstd::prelude::*;

verus! {

/// Value of an ASCII hexadecimal digit of either case.
pub open spec fn hex_digit_value(b: u8) -> Option<nat> {
    if 48 <= b <= 57 {
        Some((b - 48) as nat)
    } else if 65 <= b <= 70 {
        Some((b - 55) as nat)
    } else if 97 <= b <= 102 {
        Some((b - 87) as nat)
    } else {
        None
    }
}

pub open spec fn is_hex_digit(b: u8) -> bool {
    hex_digit_value(b) is Some
}

pub open spec fn all_hex_digits(s: Seq<u8>) -> bool {
    forall|i: int| 0 <= i < s.len() ==> #[trigger] is_hex_digit(s[i])
}

/// The number that a string of hex digits denotes, most significant first.
pub open spec fn hex_value(s: Seq<u8>) -> nat
    decreases s.len(),
{
    if s.len() == 0 {
        0
    } else {
        hex_value(s.drop_last()) * 16 + hex_digit_value(s.last()).unwrap()
    }
}

pub open spec fn pow16(n: nat) -> nat
    decreases n,
{
    if n == 0 {
        1
    } else {
        16 * pow16((n - 1) as nat)
    }
}

/// What `u32::from_str_radix(s, 16)` returns: an optional leading `+`, then
/// one or more hex digits whose value fits in 32 bits.
pub open spec fn spec_parse_hex_field(s: Seq<u8>) -> Option<u32> {
    let digits = if s.len() > 0 && s[0] == 43 {
        s.skip(1)
    } else {
        s
    };
    if digits.len() > 0 && all_hex_digits(digits) && hex_value(digits) <= u32::MAX {
        Some(hex_value(digits) as u32)
    } else {
        None
    }
}

/// Upper-case hex digit for a value below 16.
pub open spec fn hex_upper_digit(d: nat) -> u8 {
    if d < 10 {
        (48 + d) as u8
    } else {
        (55 + d) as u8
    }
}

/// The last `n` hex digits of `v`, upper case, most significant first.
pub open spec fn hex_digits(v: nat, n: nat) -> Seq<u8>
    decreases n,
{
    if n == 0 {
        seq![]
    } else {
        hex_digits(v / 16, (n - 1) as nat).push(hex_upper_digit(v % 16))
    }
}

/// How many hex digits it takes to write `v` (at least one).
pub open spec fn hex_width(v: nat) -> nat
    decreases v,
{
    if v < 16 {
        1
    } else {
        1 + hex_width(v / 16)
    }
}

/// What `format!("{:08X}", v)` writes: `v` in upper-case hex, padded with
/// zeros to at least eight digits.
pub open spec fn format_hex08(v: nat) -> Seq<u8> {
    hex_digits(v, if hex_width(v) < 8 { 8 } else { hex_width(v) })
}

proof fn lemma_hex_value_bound(s: Seq<u8>)
    requires
        all_hex_digits(s),
    ensures
        hex_value(s) < pow16(s.len()),
    decreases s.len(),
{
    if s.len() > 0 {
        let t = s.drop_last();
        assert(all_hex_digits(t)) by {
            assert forall|i: int| 0 <= i < t.len() implies #[trigger] is_hex_digit(t[i]) by {
                assert(is_hex_digit(s[i]));
            }
        }
        lemma_hex_value_bound(t);
        assert(is_hex_digit(s[s.len() - 1]));
        let a = hex_value(t);
        let p = pow16(t.len());
        let d = hex_digit_value(s.last()).unwrap();
        assert(a * 16 + d < p * 16) by (nonlinear_arith)
            requires
                a < p,
                d < 16,
        ;
    }
}

/// Value of one hex digit, either case.
fn hex_digit(b: u8) -> (r: Option<u32>)
    ensures
        r is None <==> hex_digit_value(b) is None,
        r matches Some(v) ==> hex_digit_value(b) == Some(v as nat) && v < 16,
{
    if 48 <= b && b <= 57 {
        Some((b - 48) as u32)
    } else if 65 <= b && b <= 70 {
        Some((b - 55) as u32)
    } else if 97 <= b && b <= 102 {
        Some((b - 87) as u32)
    } else {
        None
    }
}

/// Parses one eight-character header field, as `u32::from_str_radix(_, 16)`.
pub fn parse_hex_field(s: &[u8]) -> (r: Option<u32>)
    requires
        s@.len() == 8,
    ensures
        r == spec_parse_hex_field(s@),
{
    let start: usize = if s[0] == 43 {
        1
    } else {
        0
    };
    let ghost digits = s@.subrange(start as int, 8);
    assert(digits == (if s@.len() > 0 && s@[0] == 43 {
        s@.skip(1)
    } else {
        s@
    }));
    let mut v: u32 = 0;
    let mut i: usize = start;
    while i < 8
        invariant
            start <= i <= 8,
            start <= 1,
            s@.len() == 8,
            digits == s@.subrange(start as int, 8),
            digits == (if s@.len() > 0 && s@[0] == 43 {
                s@.skip(1)
            } else {
                s@
            }),
            all_hex_digits(s@.subrange(start as int, i as int)),
            v as nat == hex_value(s@.subrange(start as int, i as int)),
            hex_value(s@.subrange(start as int, i as int)) < pow16((i - start) as nat),
        decreases 8 - i,
    {
        let ghost prefix = s@.subrange(start as int, i as int);
        let ghost next = s@.subrange(start as int, i + 1);
        assert(next.drop_last() =~= prefix);
        match hex_digit(s[i]) {
            None => {
                assert(digits[i - start] == s@[i as int]);
                assert(!is_hex_digit(digits[i - start]));
                assert(!all_hex_digits(digits));
                return None;
            },
            Some(d) => {
                assert(all_hex_digits(next)) by {
                    assert forall|j: int| 0 <= j < next.len() implies #[trigger] is_hex_digit(
                        next[j],
                    ) by {
                        if j < prefix.len() {
                            assert(is_hex_digit(prefix[j]));
                        }
                    }
                }
                proof {
                    lemma_hex_value_bound(next);
                    reveal_with_fuel(pow16, 9);
                    assert(pow16((i - start) as nat) <= pow16(7)) by {
                        lemma_pow16_mono((i - start) as nat, 7);
                    }
                }
                v = v * 16 + d;
                i = i + 1;
            },
        }
    }
    assert(s@.subrange(start as int, 8) == digits);
    proof {
        reveal_with_fuel(pow16, 9);
        assert(pow16((8 - start) as nat) <= pow16(8)) by {
            lemma_pow16_mono((8 - start) as nat, 8);
        }
    }
    Some(v)
}

proof fn lemma_pow16_mono(a: nat, b: nat)
    requires
        a <= b,
    ensures
        pow16(a) <= pow16(b),
        pow16(a) >= 1,
    decreases b,
{
    if b > 0 {
        if a < b {
            lemma_pow16_mono(a, (b - 1) as nat);
        } else {
            lemma_pow16_mono((a - 1) as nat, (b - 1) as nat);
        }
    }
}

fn upper_digit(d: u64) -> (b: u8)
    requires
        d < 16,
    ensures
        b == hex_upper_digit(d as nat),
{
    if d < 10 {
        (48 + d) as u8
    } else {
        (55 + d) as u8
    }
}

/// Appends the last `n` hex digits of `v`, most significant first.
fn push_hex_digits(buf: &mut Vec<u8>, v: u64, n: usize)
    ensures
        final(buf)@ == old(buf)@ + hex_digits(v as nat, n as nat),
    decreases n,
{
    if n > 0 {
        push_hex_digits(buf, v / 16, n - 1);
        buf.push(upper_digit(v % 16));
        assert(buf@ =~= old(buf)@ + hex_digits(v as nat, n as nat));
    } else {
        assert(buf@ =~= old(buf)@ + hex_digits(v as nat, n as nat));
    }
}

proof fn lemma_hex_width_bound(v: nat, k: nat)
    requires
        1 <= k,
        v < pow16(k),
    ensures
        hex_width(v) <= k,
    decreases k,
{
    if v >= 16 {
        if k == 1 {
            reveal_with_fuel(pow16, 2);
        } else {
            let p = pow16((k - 1) as nat);
            assert(v / 16 < p) by (nonlinear_arith)
                requires
                    v < 16 * p,
            ;
            lemma_hex_width_bound(v / 16, (k - 1) as nat);
        }
    }
}

fn hex_width_of(v: u64) -> (w: usize)
    ensures
        w as nat == hex_width(v as nat),
        w <= 16,
    decreases v,
{
    proof {
        reveal_with_fuel(pow16, 17);
        lemma_hex_width_bound(v as nat, 16);
    }
    if v < 16 {
        1
    } else {
        1 + hex_width_of(v / 16)
    }
}

/// Appends `v` as `format!("{:08X}", v)` writes it.
pub fn push_hex08(buf: &mut Vec<u8>, v: u64)
    ensures
        final(buf)@ == old(buf)@ + format_hex08(v as nat),
{
    let w = hex_width_of(v);
    let n = if w < 8 {
        8
    } else {
        w
    };
    push_hex_digits(buf, v, n);
}

proof fn lemma_hex_digits_len(v: nat, n: nat)
    ensures
        hex_digits(v, n).len() == n,
    decreases n,
{
    if n > 0 {
        lemma_hex_digits_len(v / 16, (n - 1) as nat);
    }
}

proof fn lemma_hex_digits_value(v: nat, n: nat)
    requires
        v < pow16(n),
    ensures
        all_hex_digits(hex_digits(v, n)),
        hex_value(hex_digits(v, n)) == v,
        forall|i: int| 0 <= i < n ==> #[trigger] hex_digits(v, n)[i] != 43,
    decreases n,
{
    lemma_hex_digits_len(v, n);
    if n > 0 {
        let p = pow16((n - 1) as nat);
        assert(v / 16 < p) by (nonlinear_arith)
            requires
                v < 16 * p,
        ;
        lemma_hex_digits_value(v / 16, (n - 1) as nat);
        lemma_hex_digits_len(v / 16, (n - 1) as nat);
        let s = hex_digits(v, n);
        let t = hex_digits(v / 16, (n - 1) as nat);
        assert(s.drop_last() =~= t);
        assert(hex_digit_value(s.last()) == Some(v % 16));
        assert forall|i: int| 0 <= i < s.len() implies #[trigger] is_hex_digit(s[i]) by {
            if i < t.len() {
                assert(is_hex_digit(t[i]));
            }
        }
        assert forall|i: int| 0 <= i < n implies #[trigger] hex_digits(v, n)[i] != 43 by {
            if i < t.len() {
                assert(t[i] != 43);
            }
        }
    } else {
        assert(v == 0);
    }
}

/// An eight-digit field written by [`push_hex08`] parses back to its value.
pub proof fn lemma_hex_field_roundtrip(v: nat)
    requires
        v <= u32::MAX,
    ensures
        format_hex08(v) == hex_digits(v, 8),
        format_hex08(v).len() == 8,
        spec_parse_hex_field(format_hex08(v)) == Some(v as u32),
{
    reveal_with_fuel(pow16, 9);
    lemma_hex_width_bound(v, 8);
    lemma_hex_digits_len(v, 8);
    lemma_hex_digits_value(v, 8);
    let s = hex_digits(v, 8);
    assert(s[0] != 43);
}

} // verus!
