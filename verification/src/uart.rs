//! Text for the serial port: strings, hexadecimal and decimal numbers.
//! Each function appends the bytes to send to a transmit buffer; the port
//! driver writes that buffer out byte by byte.
use vstd::prelude::*;
use vstd::string::StringSliceAdditionalSpecFns;

verus! {

/// Ten to the power `n`.
pub open spec fn pow10(n: nat) -> nat
    decreases n,
{
    if n == 0 {
        1
    } else {
        10 * pow10((n - 1) as nat)
    }
}

/// The ASCII character of decimal digit `d`.
pub open spec fn digit_char(d: int) -> u8 {
    (48 + d) as u8
}

/// The `n` last decimal digits of `v`, most significant first.
pub open spec fn padded_digits(v: nat, n: nat) -> Seq<u8> {
    Seq::new(n, |i: int| digit_char((v / pow10((n - 1 - i) as nat)) as int % 10))
}

/// The number of decimal digits of `v` (one for zero).
pub open spec fn num_digits(v: nat) -> nat
    decreases v,
{
    if v < 10 {
        1
    } else {
        1 + num_digits(v / 10)
    }
}

/// The decimal representation of `v`, without leading zeros.
pub open spec fn dec_digits(v: nat) -> Seq<u8> {
    padded_digits(v, num_digits(v))
}

/// The ASCII character of hexadecimal digit `d` (capital letters).
pub open spec fn hex_char(d: int) -> u8 {
    if d < 10 {
        (48 + d) as u8
    } else {
        (55 + d) as u8
    }
}

/// The sixteen hexadecimal digits of `v`, most significant first.
pub open spec fn hex_digits(v: u64) -> Seq<u8> {
    Seq::new(16, |j: int| hex_char(((v >> ((60 - 4 * j) as u64)) & 0xf) as int))
}

proof fn lemma_pow10_pos(n: nat)
    ensures
        pow10(n) > 0,
    decreases n,
{
    if n > 0 {
        lemma_pow10_pos((n - 1) as nat);
    }
}

proof fn lemma_pow10_mono(a: nat, b: nat)
    requires
        a <= b,
    ensures
        pow10(a) <= pow10(b),
    decreases b,
{
    if a < b {
        lemma_pow10_mono(a, (b - 1) as nat);
        lemma_pow10_pos((b - 1) as nat);
    }
}

/// Taking the digit at `p` of `x`, and dropping it.
proof fn lemma_digit_step(x: int, p: int)
    requires
        x >= 0,
        p > 0,
    ensures
        (x % (p * 10)) / p == (x / p) % 10,
        (x % (p * 10)) % p == x % p,
{
    vstd::arithmetic::div_mod::lemma_mod_breakdown(x, p, 10);
    let q = (x / p) % 10;
    let r = x % p;
    assert(p * q == q * p) by (nonlinear_arith);
    vstd::arithmetic::div_mod::lemma_fundamental_div_mod_converse(x % (p * 10), p, q, r);
}

/// The number of digits of `v` is the `n` with `10^(n-1) <= v < 10^n`.
proof fn lemma_num_digits(v: nat)
    ensures
        num_digits(v) >= 1,
        v < pow10(num_digits(v)),
        num_digits(v) > 1 ==> pow10((num_digits(v) - 1) as nat) <= v,
    decreases v,
{
    if v >= 10 {
        lemma_num_digits(v / 10);
        let n = num_digits(v / 10);
        assert(v < 10 * pow10(n)) by {
            assert(v / 10 < pow10(n));
        }
        assert(pow10((n + 1) as nat) == 10 * pow10(n));
        assert(num_digits(v) == n + 1);
        if n > 1 {
            assert(pow10((n - 1) as nat) <= v / 10);
            assert(10 * pow10((n - 1) as nat) <= v);
            assert(pow10(n) == 10 * pow10((n - 1) as nat));
        } else {
            assert(pow10(0) == 1);
            assert(pow10(1) == 10);
        }
    } else {
        assert(pow10(0) == 1);
        assert(pow10(1) == 10);
    }
}

/// Only `num_digits(v)` fits `10^(n-1) <= v < 10^n`.
proof fn lemma_num_digits_unique(v: nat, n: nat)
    requires
        n >= 1,
        v < pow10(n),
        n > 1 ==> pow10((n - 1) as nat) <= v,
    ensures
        n == num_digits(v),
{
    lemma_num_digits(v);
    let m = num_digits(v);
    if n < m {
        lemma_pow10_mono(n, (m - 1) as nat);
    } else if m < n {
        lemma_pow10_mono(m, (n - 1) as nat);
    }
}

proof fn lemma_pow10_19()
    ensures
        pow10(19) == 10_000_000_000_000_000_000nat,
{
    reveal_with_fuel(pow10, 20);
}

/// Appends the bytes of `s`.
pub fn uart_puts(out: &mut Vec<u8>, s: &str)
    ensures
        final(out)@ == old(out)@ + s.spec_bytes(),
{
    let bytes = s.as_bytes();
    let mut i: usize = 0;
    while i < bytes.len()
        invariant
            bytes@ == s.spec_bytes(),
            0 <= i <= bytes@.len(),
            out@ == old(out)@ + bytes@.subrange(0, i as int),
        decreases bytes@.len() - i,
    {
        out.push(bytes[i]);
        i = i + 1;
        proof {
            assert(bytes@.subrange(0, i as int) =~= bytes@.subrange(0, i - 1).push(bytes@[i - 1]));
        }
    }
    proof {
        assert(bytes@.subrange(0, i as int) =~= bytes@);
    }
}

/// Appends the sixteen hexadecimal digits of `v`.
pub fn uart_puthex(out: &mut Vec<u8>, v: u64)
    ensures
        final(out)@ == old(out)@ + hex_digits(v),
{
    let mut j: u64 = 0;
    while j < 16
        invariant
            j <= 16,
            out@ == old(out)@ + hex_digits(v).subrange(0, j as int),
        decreases 16 - j,
    {
        let i: u64 = 60 - 4 * j;
        let d: u64 = (v >> i) & 0xf;
        assert(d < 16) by (bit_vector)
            requires
                d == (v >> i) & 0xf,
        ;
        let c: u8 = if d < 10 {
            48 + d as u8
        } else {
            55 + d as u8
        };
        out.push(c);
        proof {
            assert(c == hex_char(d as int));
            assert(hex_digits(v)[j as int] == c);
            assert(hex_digits(v).subrange(0, j + 1) =~= hex_digits(v).subrange(0, j as int).push(c));
        }
        j = j + 1;
    }
    proof {
        assert(hex_digits(v).subrange(0, 16) =~= hex_digits(v));
    }
}

/// Appends the `n` last decimal digits of `v`, given `w == 10^(n-1)`.
fn put_digits(out: &mut Vec<u8>, v: u64, w: u64, Ghost(n): Ghost<nat>)
    requires
        n >= 1,
        v < pow10(n),
        w == pow10((n - 1) as nat),
    ensures
        final(out)@ == old(out)@ + padded_digits(v as nat, n),
{
    let ghost v0 = v as nat;
    let ghost ds = padded_digits(v0, n);
    let mut v = v;
    let mut w = w;
    let ghost mut j: nat = 0;
    proof {
        lemma_pow10_pos((n - 1) as nat);
        lemma_pow10_pos(n);
        vstd::arithmetic::div_mod::lemma_small_mod(v0, pow10(n));
        assert(out@ =~= old(out)@ + ds.subrange(0, 0));
    }
    while w > 0
        invariant
            n >= 1,
            v0 < pow10(n),
            ds == padded_digits(v0, n),
            j <= n,
            out@ == old(out)@ + ds.subrange(0, j as int),
            v == v0 % pow10((n - j) as nat),
            j < n ==> w == pow10((n - 1 - j) as nat),
            j == n ==> w == 0,
        decreases n - j,
    {
        let ghost m = (n - 1 - j) as nat;
        proof {
            lemma_pow10_pos(m);
            assert(pow10((n - j) as nat) == pow10(m) * 10) by {
                assert(pow10((m + 1) as nat) == 10 * pow10(m));
            }
            lemma_digit_step(v0 as int, pow10(m) as int);
            assert(v / w == (v0 / pow10(m)) % 10);
        }
        let d: u64 = v / w;
        let c: u8 = 48 + d as u8;
        out.push(c);
        v = v % w;
        w = w / 10;
        proof {
            assert(ds[j as int] == c);
            assert(ds.subrange(0, j + 1 as int) =~= ds.subrange(0, j as int).push(c));
            j = j + 1;
            if j < n {
                assert(pow10(m) == 10 * pow10((m - 1) as nat));
            } else {
                assert(pow10(m) == 1);
            }
        }
    }
    proof {
        if j < n {
            lemma_pow10_pos((n - 1 - j) as nat);
        }
        assert(ds.subrange(0, n as int) =~= ds);
    }
}

/// Appends the decimal representation of `v`, without leading zeros.
pub fn uart_putdec(out: &mut Vec<u8>, v: u64)
    requires
        v < pow10(19),
    ensures
        final(out)@ == old(out)@ + dec_digits(v as nat),
{
    if v == 0 {
        out.push(48);
        proof {
            assert(dec_digits(0) =~= seq![48u8]);
        }
        return;
    }
    let mut w: u64 = 1;
    let ghost mut n: nat = 0;
    proof {
        lemma_pow10_19();
    }
    while w <= v
        invariant
            0 < v < pow10(19),
            pow10(19) == 10_000_000_000_000_000_000nat,
            w == pow10(n),
            n <= 19,
            n > 0 ==> pow10((n - 1) as nat) <= v,
        decreases 19 - n,
    {
        proof {
            if n == 19 {
                assert(false);
            }
            lemma_pow10_mono(n + 1, 19);
        }
        w = w * 10;
        proof {
            n = n + 1;
        }
    }
    proof {
        lemma_num_digits_unique(v as nat, n);
        assert(pow10(n) == 10 * pow10((n - 1) as nat));
    }
    w = w / 10;
    put_digits(out, v, w, Ghost(n));
}

/// Appends the `len` last decimal digits of `v`, with leading zeros; zero
/// is written as a single `0`, and nothing is written for another value
/// when `len` is not positive.
pub fn uart_putdec_sized(out: &mut Vec<u8>, v: u64, len: i32)
    requires
        v == 0 || len <= 0 || (len <= 19 && v < pow10(len as nat)),
    ensures
        final(out)@ == old(out)@ + (if v == 0 {
            seq![48u8]
        } else if len <= 0 {
            Seq::<u8>::empty()
        } else {
            padded_digits(v as nat, len as nat)
        }),
{
    if v == 0 {
        out.push(48);
        return;
    }
    let mut w: u64 = 1;
    proof {
        lemma_pow10_19();
    }
    let mut i: i32 = 0;
    while i < len
        invariant
            len > 0 ==> len <= 19,
            pow10(19) == 10_000_000_000_000_000_000nat,
            0 <= i,
            i <= len || len <= 0,
            w == pow10(i as nat),
        decreases len - i,
    {
        proof {
            lemma_pow10_mono((i + 1) as nat, 19);
        }
        w = w * 10;
        i = i + 1;
    }
    if len <= 0 {
        proof {
            assert(out@ =~= old(out)@ + Seq::<u8>::empty());
        }
        return;
    }
    proof {
        assert(i == len);
        assert(pow10(len as nat) == 10 * pow10((len - 1) as nat));
    }
    w = w / 10;
    put_digits(out, v, w, Ghost(len as nat));
}

/// The bytes `print_rate` writes for `a` out of `b`: both numbers, then
/// the percentage with six decimals.
pub open spec fn rate_text(a: u64, b: u64) -> Seq<u8> {
    let epct = ((a * 100000000) as nat) / (b as nat);
    let frac = epct % 1000000;
    dec_digits(a as nat) + seq![32u8, 47u8, 32u8] + dec_digits(b as nat) + seq![32u8, 40u8] + dec_digits(
        epct / 1000000,
    ) + seq![46u8] + (if frac == 0 {
        seq![48u8]
    } else {
        padded_digits(frac, 6)
    }) + seq![37u8, 41u8, 10u8]
}

/// Writes `a` out of `b` as `a / b (p%)`, the percentage with six
/// decimals.
pub fn print_rate(out: &mut Vec<u8>, a: u64, b: u64)
    requires
        b != 0,
        a * 100000000 <= u64::MAX,
        b < pow10(19),
    ensures
        final(out)@ == old(out)@ + rate_text(a, b),
{
    proof {
        lemma_pow10_19();
        reveal_strlit(" / ");
        reveal_strlit(" (");
        reveal_strlit(".");
        reveal_strlit("%)\n");
        assert(pow10(6) == 1000000) by {
            reveal_with_fuel(pow10, 7);
        }
    }
    uart_putdec(out, a);
    uart_puts(out, " / ");
    uart_putdec(out, b);
    uart_puts(out, " (");
    let epct = a * 100000000 / b;
    uart_putdec(out, epct / 1000000);
    uart_puts(out, ".");
    uart_putdec_sized(out, epct % 1000000, 6);
    uart_puts(out, "%)\n");
    proof {
        vstd::string::is_ascii_spec_bytes(" / ");
        vstd::string::is_ascii_spec_bytes(" (");
        vstd::string::is_ascii_spec_bytes(".");
        vstd::string::is_ascii_spec_bytes("%)\n");
        assert(" / ".spec_bytes() =~= seq![32u8, 47u8, 32u8]);
        assert(" (".spec_bytes() =~= seq![32u8, 40u8]);
        assert(".".spec_bytes() =~= seq![46u8]);
        assert("%)\n".spec_bytes() =~= seq![37u8, 41u8, 10u8]);
        assert(out@ =~= old(out)@ + rate_text(a, b));
    }
}

/// The number that decimal digits `s` spell.
pub open spec fn digits_value(s: Seq<u8>) -> nat
    decreases s.len(),
{
    if s.len() == 0 {
        0
    } else {
        digits_value(s.drop_last()) * 10 + (s.last() - 48) as nat
    }
}

/// The `n` last digits of `v` spell `v mod 10^n`.
proof fn lemma_padded_value(v: nat, n: nat)
    ensures
        digits_value(padded_digits(v, n)) == v % pow10(n),
    decreases n,
{
    if n == 0 {
        assert(v % 1 == 0);
    } else {
        let m = (n - 1) as nat;
        lemma_padded_value(v / 10, m);
        lemma_pow10_pos(m);
        let s = padded_digits(v, n);
        assert(s.drop_last() =~= padded_digits(v / 10, m)) by {
            assert forall|i: int| 0 <= i < m implies #[trigger] s.drop_last()[i] == padded_digits(v / 10, m)[i] by {
                let e = (m - 1 - i) as nat;
                assert(pow10((n - 1 - i) as nat) == 10 * pow10(e));
                lemma_pow10_pos(e);
                vstd::arithmetic::div_mod::lemma_div_denominator(v as int, 10, pow10(e) as int);
            }
        }
        assert(pow10(0) == 1);
        assert(((n - 1 - (n - 1)) as nat) == 0);
        assert(v / 1 == v);
        assert(s.last() == s[n - 1]);
        assert(s[n - 1] == digit_char((v / pow10(0)) as int % 10));
        assert(s.last() == digit_char((v % 10) as int));
        vstd::arithmetic::div_mod::lemma_mod_breakdown(v as int, 10, pow10(m) as int);
        assert(pow10(n) == 10 * pow10(m));
    }
}

/// Decimal output reads back as the number written, and starts with a
/// non-zero digit unless the number is zero.
pub proof fn law_decimal_round_trip(v: nat)
    ensures
        digits_value(dec_digits(v)) == v,
        v > 0 ==> dec_digits(v)[0] != 48,
{
    lemma_num_digits(v);
    let n = num_digits(v);
    lemma_padded_value(v, n);
    vstd::arithmetic::div_mod::lemma_small_mod(v, pow10(n));
    if v > 0 {
        let e = (n - 1) as nat;
        lemma_pow10_pos(e);
        if n > 1 {
            assert(pow10(e) <= v);
        } else {
            assert(pow10(0) == 1);
        }
        assert(pow10(n) == 10 * pow10(e));
        vstd::arithmetic::div_mod::lemma_div_is_ordered(pow10(e) as int, v as int, pow10(e) as int);
        vstd::arithmetic::div_mod::lemma_fundamental_div_mod_converse(pow10(e) as int, pow10(e) as int, 1, 0);
        vstd::arithmetic::div_mod::lemma_div_is_ordered(v as int, (10 * pow10(e) - 1) as int, pow10(e) as int);
        assert((10 * pow10(e) - 1) as int / pow10(e) as int == 9) by {
            vstd::arithmetic::div_mod::lemma_fundamental_div_mod_converse(
                (10 * pow10(e) - 1) as int,
                pow10(e) as int,
                9,
                (pow10(e) - 1) as int,
            );
        }
        let q = v / pow10(e);
        assert(1 <= q <= 9);
        vstd::arithmetic::div_mod::lemma_small_mod(q, 10);
    }
}

/// Every byte of `s` is a decimal digit.
pub open spec fn all_digits(s: Seq<u8>) -> bool {
    forall|i: int| 0 <= i < s.len() ==> 48 <= #[trigger] s[i] <= 57
}

proof fn lemma_padded_all_digits(v: nat, n: nat)
    ensures
        all_digits(padded_digits(v, n)),
        padded_digits(v, n).len() == n,
{
    let s = padded_digits(v, n);
    assert forall|i: int| 0 <= i < s.len() implies 48 <= #[trigger] s[i] <= 57 by {
        let x = (v / pow10((n - 1 - i) as nat)) as int % 10;
        assert(0 <= x < 10);
    }
}

/// The rate text reads back: after `a / b (` comes the whole percentage,
/// a point and the fraction, then `%)` and a newline.  With `p` the
/// percentage in millionths, `a * 10^8 / b` rounded down, the whole part
/// spells `p / 10^6` and the fraction is six digits that spell
/// `p mod 10^6`, or a single `0` when that is zero: the printed number is
/// `p / 10^6` exactly.
pub proof fn law_rate_text_reads_back(a: u64, b: u64)
    requires
        b != 0,
        a * 100000000 <= u64::MAX,
    ensures
        ({
            let p = ((a * 100000000) as nat) / (b as nat);
            exists|whole: Seq<u8>, frac: Seq<u8>|
                {
                    &&& rate_text(a, b) == dec_digits(a as nat) + seq![32u8, 47u8, 32u8] + dec_digits(b as nat)
                        + seq![32u8, 40u8] + whole + seq![46u8] + frac + seq![37u8, 41u8, 10u8]
                    &&& all_digits(whole)
                    &&& whole.len() >= 1
                    &&& digits_value(whole) == p / 1000000
                    &&& all_digits(frac)
                    &&& if p % 1000000 == 0 {
                        frac == seq![48u8]
                    } else {
                        frac.len() == 6 && digits_value(frac) == p % 1000000
                    }
                }
        }),
{
    let p = ((a * 100000000) as nat) / (b as nat);
    let w = p / 1000000;
    let fr = p % 1000000;
    let whole = dec_digits(w);
    let frac = if fr == 0 {
        seq![48u8]
    } else {
        padded_digits(fr, 6)
    };
    law_decimal_round_trip(w);
    lemma_num_digits(w);
    lemma_padded_all_digits(w, num_digits(w));
    if fr != 0 {
        lemma_padded_all_digits(fr, 6);
        lemma_padded_value(fr, 6);
        assert(pow10(6) == 1000000) by {
            reveal_with_fuel(pow10, 7);
        }
        vstd::arithmetic::div_mod::lemma_small_mod(fr, 1000000);
    } else {
        assert(all_digits(frac)) by {
            assert forall|i: int| 0 <= i < frac.len() implies 48 <= #[trigger] frac[i] <= 57 by {
                assert(frac[i] == 48u8);
            }
        }
    }
    assert(rate_text(a, b) == dec_digits(a as nat) + seq![32u8, 47u8, 32u8] + dec_digits(b as nat) + seq![32u8, 40u8]
        + whole + seq![46u8] + frac + seq![37u8, 41u8, 10u8]);
}

} // verus!
