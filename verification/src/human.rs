//! Human-readable byte counts, as the front ends print them.

use crate::connect::{all_digits, digits_value};
use crate::text::push_char;
use vstd::prelude::*;

verus! {

/// The decimal digit `d` (0 to 9) as a character.
pub open spec fn digit_char(d: nat) -> char {
    ((48 + d) as u8) as char
}

/// The decimal representation of `n`, without leading zeros.
pub open spec fn decimal(n: nat) -> Seq<char>
    decreases n,
{
    if n < 10 {
        seq![digit_char(n)]
    } else {
        decimal(n / 10).push(digit_char(n % 10))
    }
}

/// `d` is the usual decimal numeral of `n`: digits only, at least one, no
/// leading zero, and read back it gives `n`.
pub open spec fn numeral_of(d: Seq<char>, n: int) -> bool {
    &&& d.len() > 0
    &&& all_digits(d)
    &&& digits_value(d) == n
    &&& (d.len() == 1 || d[0] != '0')
}

/// [`decimal`] writes the numeral of `n`.
pub proof fn lemma_decimal_numeral(n: nat)
    ensures
        numeral_of(decimal(n), n as int),
    decreases n,
{
    if n < 10 {
        let d = decimal(n);
        assert(d == seq![digit_char(n)]);
        assert(digit_char(n) as u32 == 48 + n);
        assert(d.drop_last() =~= Seq::<char>::empty());
        assert(digits_value(d.drop_last()) == 0);
        assert(d.last() == digit_char(n));
        assert(digits_value(d) == n);
        assert('0' <= d[0] && d[0] <= '9');
    } else {
        lemma_decimal_numeral(n / 10);
        let d = decimal(n / 10);
        let e = d.push(digit_char(n % 10));
        assert(digit_char(n % 10) as u32 == 48 + n % 10);
        assert(e.drop_last() =~= d);
        assert(e[0] == d[0]);
        assert(n == 10 * (n / 10) + n % 10) by (nonlinear_arith);
        assert(digits_value(e) == 10 * digits_value(d) + (n % 10));
        assert('0' <= e.last() && e.last() <= '9');
        assert forall|i: int| 0 <= i < e.len() implies '0' <= #[trigger] e[i] && e[i] <= '9' by {
            if i < d.len() {
                assert(e[i] == d[i]);
            }
        }
        if d.len() == 1 {
            assert(d[0] != '0') by {
                if d[0] == '0' {
                    assert(digits_value(d) == 10 * digits_value(d.drop_last()) + 0);
                    assert(digits_value(d.drop_last()) == 0);
                }
            }
        }
    }
}

/// Appends the decimal representation of `n` to `out`.
pub fn push_decimal(out: &mut String, n: u128)
    ensures
        final(out)@ == old(out)@ + decimal(n as nat),
    decreases n,
{
    if n >= 10 {
        push_decimal(out, n / 10);
    }
    let d: u8 = (n % 10) as u8;
    let c: char = (48u8 + d) as char;
    push_char(out, c);
    assert(old(out)@ + decimal(n as nat) =~= if n >= 10 {
        old(out)@ + decimal((n / 10) as nat) + seq![c]
    } else {
        old(out)@ + seq![c]
    });
}


/// `2` to the power `k`.
pub open spec fn power_of_two(k: nat) -> nat
    decreases k,
{
    if k == 0 {
        1
    } else {
        2 * power_of_two((k - 1) as nat)
    }
}

/// `1024` to the power `u`.
pub open spec fn power_of_1024(u: nat) -> nat
    decreases u,
{
    if u == 0 {
        1
    } else {
        1024 * power_of_1024((u - 1) as nat)
    }
}

/// The number of binary digits of `b` (0 for 0).
pub open spec fn bit_len(b: nat) -> nat
    decreases b,
{
    if b == 0 {
        0
    } else {
        1 + bit_len(b / 2)
    }
}

/// The value of `b as f64`: `b` rounded to 53 significant bits, ties to even.
pub open spec fn f64_value(b: nat) -> nat {
    if bit_len(b) <= 53 {
        b
    } else {
        let unit = power_of_two((bit_len(b) - 53) as nat);
        let q = b / unit;
        let r = b % unit;
        if 2 * r > unit || (2 * r == unit && q % 2 == 1) {
            (q + 1) * unit
        } else {
            q * unit
        }
    }
}

/// How many times `m` is divided by 1024 before it falls below 1024, at most 5.
pub open spec fn unit_index(m: nat) -> nat {
    if m >= power_of_1024(5) {
        5
    } else if m >= power_of_1024(4) {
        4
    } else if m >= power_of_1024(3) {
        3
    } else if m >= power_of_1024(2) {
        2
    } else if m >= power_of_1024(1) {
        1
    } else {
        0
    }
}

/// `m / 1024^u` in tenths, rounded to the nearest tenth, ties to even.
pub open spec fn tenths(m: nat, u: nat) -> nat {
    let d = power_of_1024(u);
    let q = (10 * m) / d;
    let r = (10 * m) % d;
    if 2 * r > d || (2 * r == d && q % 2 == 1) {
        q + 1
    } else {
        q
    }
}

/// The name of unit `u`.
pub open spec fn unit_name(u: nat) -> Seq<char> {
    if u == 1 {
        "KB"@
    } else if u == 2 {
        "MB"@
    } else if u == 3 {
        "GB"@
    } else if u == 4 {
        "TB"@
    } else {
        "PB"@
    }
}

/// The text of a byte count: below 1024 the exact count and ` B`; otherwise
/// the count as an `f64` divided by the largest power of 1024 that fits (up
/// to PB), with one decimal, then the unit.
pub open spec fn human_text(bytes: u64) -> Seq<char> {
    let m = f64_value(bytes as nat);
    let u = unit_index(m);
    if u == 0 {
        decimal(bytes as nat) + " B"@
    } else {
        let t = tenths(m, u);
        decimal(t / 10) + seq!['.'] + decimal(t % 10) + seq![' '] + unit_name(u)
    }
}

proof fn lemma_bit_len_bound(b: nat, k: nat)
    requires
        b < power_of_two(k),
    ensures
        bit_len(b) <= k,
    decreases k,
{
    if k > 0 && b > 0 {
        lemma_bit_len_bound(b / 2, (k - 1) as nat);
    }
}

proof fn lemma_power_of_two_mono(a: nat, b: nat)
    requires
        a <= b,
    ensures
        power_of_two(a) <= power_of_two(b),
    decreases b,
{
    if a < b {
        lemma_power_of_two_mono(a, (b - 1) as nat);
    }
}

proof fn lemma_power_of_two_64()
    ensures
        power_of_two(64) == 0x1_0000_0000_0000_0000,
        power_of_two(53) == 0x20_0000_0000_0000,
{
    reveal_with_fuel(power_of_two, 65);
}

proof fn lemma_power_of_1024_values()
    ensures
        power_of_1024(1) == 1024,
        power_of_1024(2) == 1048576,
        power_of_1024(3) == 1073741824,
        power_of_1024(4) == 1099511627776,
        power_of_1024(5) == 1125899906842624,
{
    reveal_with_fuel(power_of_1024, 6);
}

/// The value of `b as f64`, as an integer.
fn f64_value_of(b: u64) -> (m: u128)
    ensures
        m == f64_value(b as nat),
        m <= 0x2_0000_0000_0000_0000,
{
    let mut bl: u32 = 0;
    let mut t: u64 = b;
    while t > 0
        invariant
            bit_len(b as nat) == bl + bit_len(t as nat),
            bl <= 64,
            t as nat <= b as nat,
            t > 0 ==> bl < 64,
        decreases t,
    {
        proof {
            lemma_power_of_two_64();
            lemma_bit_len_bound(b as nat, 64);
        }
        t = t / 2;
        bl = bl + 1;
    }
    proof {
        lemma_power_of_two_64();
        lemma_bit_len_bound(b as nat, 64);
    }
    if bl <= 53 {
        return b as u128;
    }
    let sh: u32 = bl - 53;
    let mut unit: u128 = 1;
    let mut k: u32 = 0;
    while k < sh
        invariant
            k <= sh,
            sh <= 11,
            unit == power_of_two(k as nat),
            1 <= unit <= 2048,
        decreases sh - k,
    {
        proof {
            lemma_power_of_two_mono(k as nat, 10);
            reveal_with_fuel(power_of_two, 12);
        }
        unit = unit * 2;
        k = k + 1;
    }
    let bb: u128 = b as u128;
    let q: u128 = bb / unit;
    let r: u128 = bb % unit;
    assert(q <= bb) by (nonlinear_arith)
        requires
            q == bb / unit,
            unit >= 1,
    ;
    assert(q * unit <= 0x1_0000_0000_0000_0000 * 2048) by (nonlinear_arith)
        requires
            q <= 0x1_0000_0000_0000_0000,
            unit <= 2048,
    ;
    assert((q + 1) * unit <= 0x1_0000_0000_0000_0000 * 2048 + 2048) by (nonlinear_arith)
        requires
            q <= 0x1_0000_0000_0000_0000,
            unit <= 2048,
    ;
    let m = if 2 * r > unit || (2 * r == unit && q % 2 == 1) {
        (q + 1) * unit
    } else {
        q * unit
    };
    proof {
        assert(bb == unit * q + r) by (nonlinear_arith)
            requires
                q == bb / unit,
                r == bb % unit,
                unit >= 1,
        ;
        assert(m <= 0x2_0000_0000_0000_0000) by (nonlinear_arith)
            requires
                bb == unit * q + r,
                r >= 0,
                bb < 0x1_0000_0000_0000_0000,
                unit >= 1,
                unit <= 2048,
                m == q * unit || m == (q + 1) * unit,
        ;
    }
    m
}


/// Formats a byte count for people: `512 B`, `1.5 KB`, `45.2 GB`; see [`human_text`].
pub fn human(bytes: u64) -> (res: String)
    ensures
        res@ == human_text(bytes),
{
    let m = f64_value_of(bytes);
    proof {
        lemma_power_of_1024_values();
    }
    let u: u32 = if m >= 1125899906842624 {
        5
    } else if m >= 1099511627776 {
        4
    } else if m >= 1073741824 {
        3
    } else if m >= 1048576 {
        2
    } else if m >= 1024 {
        1
    } else {
        0
    };
    assert(u == unit_index(m as nat));
    let mut out = String::new();
    if u == 0 {
        push_decimal(&mut out, bytes as u128);
        out.append(" B");
        return out;
    }
    let d: u128 = if u == 1 {
        1024
    } else if u == 2 {
        1048576
    } else if u == 3 {
        1073741824
    } else if u == 4 {
        1099511627776
    } else {
        1125899906842624
    };
    assert(d == power_of_1024(u as nat));
    let q = (10 * m) / d;
    let r = (10 * m) % d;
    let t = if 2 * r > d || (2 * r == d && q % 2 == 1) {
        q + 1
    } else {
        q
    };
    assert(t == tenths(m as nat, u as nat));
    push_decimal(&mut out, t / 10);
    push_char(&mut out, '.');
    push_decimal(&mut out, t % 10);
    push_char(&mut out, ' ');
    let name = if u == 1 {
        "KB"
    } else if u == 2 {
        "MB"
    } else if u == 3 {
        "GB"
    } else if u == 4 {
        "TB"
    } else {
        "PB"
    };
    assert(name@ == unit_name(u as nat));
    out.append(name);
    out
}

} // verus!
