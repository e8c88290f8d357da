//! Integers written in decimal, hexadecimal, octal or binary.

use vstd::prelude::*;
use vstd::arithmetic::div_mod::lemma_fundamental_div_mod;
use crate::text::{chars_of, copy_range, string_of};
use crate::utils::{occurs, StrUtils};

verus! {

/// The value of `c` as a digit, for any radix up to 36; 36 where `c` is no
/// digit at all.
pub open spec fn digit_value(c: char) -> int {
    if '0' <= c && c <= '9' {
        c as int - '0' as int
    } else if 'a' <= c && c <= 'z' {
        c as int - 'a' as int + 10
    } else if 'A' <= c && c <= 'Z' {
        c as int - 'A' as int + 10
    } else {
        36
    }
}

pub open spec fn all_digits(s: Seq<char>, radix: int) -> bool {
    forall|i: int| 0 <= i < s.len() ==> digit_value(#[trigger] s[i]) < radix
}

/// The number that the digits `s` spell in `radix`, most significant first.
pub open spec fn digits_value(s: Seq<char>, radix: int) -> int
    decreases s.len(),
{
    if s.len() == 0 {
        0
    } else {
        digits_value(s.drop_last(), radix) * radix + digit_value(s.last())
    }
}

/// What `i32::from_str_radix` makes of `s`: an optional sign, then at least
/// one digit of `radix`, and a value that fits in an `i32`.
pub open spec fn radix_parse(s: Seq<char>, radix: int) -> Option<int> {
    if s.len() == 0 {
        None
    } else if (s[0] == '+' || s[0] == '-') && s.len() == 1 {
        None
    } else {
        let neg = s[0] == '-';
        let d = if s[0] == '+' || s[0] == '-' {
            s.skip(1)
        } else {
            s
        };
        let v = if neg {
            -digits_value(d, radix)
        } else {
            digits_value(d, radix)
        };
        if all_digits(d, radix) && i32::MIN <= v && v <= i32::MAX {
            Some(v)
        } else {
            None
        }
    }
}

/// Relies on `i32::from_str_radix`: an optional `+` or `-`, then only digits of
/// `radix` (`0-9`, `a-z`, `A-Z`), with an error where the value overflows.
#[verifier::external_body]
pub(crate) fn i32_from_str_radix(s: &str, radix: u32) -> (r: Option<i32>)
    requires
        2 <= radix <= 36,
    ensures
        match radix_parse(s@, radix as int) {
            Some(v) => r == Some(v as i32),
            None => r is None,
        },
{
    i32::from_str_radix(s, radix).ok()
}

/// `s` without any `c`.
pub open spec fn without(s: Seq<char>, c: char) -> Seq<char>
    decreases s.len(),
{
    if s.len() == 0 {
        s
    } else if s.last() == c {
        without(s.drop_last(), c)
    } else {
        without(s.drop_last(), c).push(s.last())
    }
}

pub open spec fn has_prefix(s: Seq<char>, a: char, b: char) -> bool {
    s.len() >= 2 && s[0] == a && s[1] == b
}

pub open spec fn is_hex_letter(c: char) -> bool {
    ('A' <= c && c <= 'F') || ('a' <= c && c <= 'f')
}

pub open spec fn has_hex_letter(s: Seq<char>) -> bool {
    exists|i: int| 0 <= i < s.len() && is_hex_letter(#[trigger] s[i])
}

/// What `parse_integer_auto` makes of `s`: every `-` is dropped, a leading one
/// negates; `0x`, `0o` and `0b` choose the radix, and so does a letter `A-F`
/// without a prefix; anything else is decimal.
pub open spec fn auto_int(s: Seq<char>) -> Option<int> {
    let neg = s.len() > 0 && s[0] == '-';
    let t = without(s, '-');
    let v = if has_prefix(t, '0', 'x') {
        radix_parse(t.skip(2), 16)
    } else if has_prefix(t, '0', 'o') {
        radix_parse(t.skip(2), 8)
    } else if has_prefix(t, '0', 'b') {
        radix_parse(t.skip(2), 2)
    } else if has_hex_letter(t) {
        radix_parse(t, 16)
    } else {
        radix_parse(t, 10)
    };
    match v {
        Some(x) => Some(
            if neg {
                -x
            } else {
                x
            },
        ),
        None => None,
    }
}

proof fn lemma_digits_value_nonneg(s: Seq<char>, radix: int)
    requires
        radix >= 2,
        all_digits(s, radix),
    ensures
        digits_value(s, radix) >= 0,
    decreases s.len(),
{
    if s.len() > 0 {
        assert(all_digits(s.drop_last(), radix)) by {
            assert forall|i: int| 0 <= i < s.drop_last().len() implies digit_value(
                #[trigger] s.drop_last()[i],
            ) < radix by {
                assert(s.drop_last()[i] == s[i]);
            }
        }
        lemma_digits_value_nonneg(s.drop_last(), radix);
        assert(digits_value(s.drop_last(), radix) * radix >= 0) by (nonlinear_arith)
            requires
                digits_value(s.drop_last(), radix) >= 0,
                radix >= 2,
        ;
    }
}

proof fn lemma_radix_parse_nonneg(s: Seq<char>, radix: int)
    requires
        radix >= 2,
        s.len() > 0 ==> s[0] != '-',
    ensures
        radix_parse(s, radix) matches Some(v) ==> v >= 0,
{
    if s.len() > 0 && !((s[0] == '+' || s[0] == '-') && s.len() == 1) {
        let d = if s[0] == '+' {
            s.skip(1)
        } else {
            s
        };
        if all_digits(d, radix) {
            lemma_digits_value_nonneg(d, radix);
        }
    }
}

/// Text without any `-` never reads as a negative number.
pub proof fn lemma_auto_int_nonneg(s: Seq<char>)
    requires
        forall|i: int| 0 <= i < s.len() ==> s[i] != '-',
    ensures
        auto_int(s) matches Some(x) ==> 0 <= x <= i32::MAX,
{
    lemma_without_plain(s, '-');
    if s.len() >= 2 {
        if s.len() > 2 {
            assert(s.skip(2)[0] == s[2]);
        }
        lemma_radix_parse_nonneg(s.skip(2), 16);
        lemma_radix_parse_nonneg(s.skip(2), 8);
        lemma_radix_parse_nonneg(s.skip(2), 2);
    }
    lemma_radix_parse_nonneg(s, 16);
    lemma_radix_parse_nonneg(s, 10);
}

/// `v` with every `-` removed.
fn drop_dashes(v: &Vec<char>) -> (r: Vec<char>)
    ensures
        r@ == without(v@, '-'),
{
    let mut out: Vec<char> = Vec::new();
    let mut i: usize = 0;
    while i < v.len()
        invariant
            0 <= i <= v.len(),
            out@ == without(v@.take(i as int), '-'),
        decreases v.len() - i,
    {
        assert(v@.take(i + 1).drop_last() =~= v@.take(i as int));
        if v[i] != '-' {
            out.push(v[i]);
        }
        i += 1;
    }
    assert(v@.take(v.len() as int) =~= v@);
    out
}

/// Parses decimal, hexadecimal (`0x`), octal (`0o`) and binary (`0b`)
/// integers, with an optional leading `-`; a string holding a letter `A-F`
/// is hexadecimal even without `0x`.
pub fn parse_integer_auto(s: &str) -> (r: Result<i32, ()>)
    ensures
        match auto_int(s@) {
            Some(v) => r == Ok::<i32, ()>(v as i32),
            None => r is Err,
        },
{
    let v = chars_of(s);
    let neg = v.len() > 0 && v[0] == '-';
    let t = drop_dashes(&v);
    let ghost tv = t@;
    let parsed = if t.len() >= 2 && t[0] == '0' && (t[1] == 'x' || t[1] == 'o' || t[1] == 'b') {
        let radix: u32 = if t[1] == 'x' {
            16
        } else if t[1] == 'o' {
            8
        } else {
            2
        };
        let rest = string_of(copy_range(&t, 2, t.len()));
        assert(rest@ == tv.skip(2));
        proof {
            if tv.len() > 2 {
                assert(tv[2] == tv.skip(2)[0]);
                lemma_without_has_no(v@, '-', 2);
            }
            lemma_radix_parse_nonneg(tv.skip(2), radix as int);
        }
        i32_from_str_radix(rest.as_str(), radix)
    } else {
        let whole = string_of(t);
        let hex = StrUtils(whole.as_str()).contains_any("ABCDEFabcdef");
        proof {
            reveal_strlit("ABCDEFabcdef");
            if tv.len() > 0 {
                lemma_without_has_no(v@, '-', 0);
            }
            lemma_radix_parse_nonneg(tv, 16);
            lemma_radix_parse_nonneg(tv, 10);
            if hex {
                let i = choose|i: int| 0 <= i < 12 && occurs(tv, #[trigger] "ABCDEFabcdef"@[i]);
                let j = choose|j: int| 0 <= j < tv.len() && tv[j] == "ABCDEFabcdef"@[i];
                assert(is_hex_letter(tv[j]));
            } else {
                assert forall|j: int| 0 <= j < tv.len() implies !is_hex_letter(#[trigger] tv[j]) by {
                    if is_hex_letter(tv[j]) {
                        let c = tv[j];
                        let i: int = if 'A' <= c && c <= 'F' {
                            c as int - 'A' as int
                        } else {
                            c as int - 'a' as int + 6
                        };
                        assert("ABCDEFabcdef"@[i] == tv[j]);
                        assert(occurs(tv, "ABCDEFabcdef"@[i]));
                    }
                }
            }
        }
        if hex {
            i32_from_str_radix(whole.as_str(), 16)
        } else {
            i32_from_str_radix(whole.as_str(), 10)
        }
    };
    match parsed {
        Some(x) => {
            if neg {
                Ok(-x)
            } else {
                Ok(x)
            }
        },
        None => Err(()),
    }
}

proof fn lemma_without_has_no(s: Seq<char>, c: char, k: int)
    requires
        0 <= k < without(s, c).len(),
    ensures
        without(s, c)[k] != c,
    decreases s.len(),
{
    if s.len() > 0 {
        if s.last() == c {
            lemma_without_has_no(s.drop_last(), c, k);
        } else if k < without(s.drop_last(), c).len() {
            lemma_without_has_no(s.drop_last(), c, k);
        }
    }
}

/// The digit of value `d` (below 16), with lower-case letters.
pub open spec fn digit_char(d: int) -> char {
    if d == 0 { '0' } else if d == 1 { '1' } else if d == 2 { '2' } else if d == 3 { '3' }
    else if d == 4 { '4' } else if d == 5 { '5' } else if d == 6 { '6' } else if d == 7 { '7' }
    else if d == 8 { '8' } else if d == 9 { '9' } else if d == 10 { 'a' } else if d == 11 { 'b' }
    else if d == 12 { 'c' } else if d == 13 { 'd' } else if d == 14 { 'e' } else { 'f' }
}

/// The digits of `n` in `radix`, most significant first, without leading zeros.
pub open spec fn digits_of(n: nat, radix: nat) -> Seq<char>
    recommends
        2 <= radix <= 16,
    decreases n via digits_of_decreases
{
    if n < radix || radix < 2 {
        seq![digit_char(n as int)]
    } else {
        digits_of(n / radix, radix).push(digit_char((n % radix) as int))
    }
}

#[via_fn]
proof fn digits_of_decreases(n: nat, radix: nat) {
    if !(n < radix || radix < 2) {
        assert(n / radix < n) by (nonlinear_arith)
            requires
                n >= radix,
                radix >= 2,
        ;
    }
}

proof fn lemma_digit_char(d: int)
    requires
        0 <= d < 16,
    ensures
        digit_value(digit_char(d)) == d,
        d < 10 ==> is_dec_digit(digit_char(d)),
        digit_char(d) != '-' && digit_char(d) != '+',
{
}

/// The prefix that marks `radix`: `0x`, `0o`, `0b`, or none for decimal.
pub open spec fn radix_prefix(radix: nat) -> Seq<char> {
    if radix == 16 {
        seq!['0', 'x']
    } else if radix == 8 {
        seq!['0', 'o']
    } else if radix == 2 {
        seq!['0', 'b']
    } else {
        seq![]
    }
}

/// `n` written in `radix`: a `-` where it is negative, the radix prefix, the digits.
pub open spec fn int_text(n: int, radix: nat) -> Seq<char> {
    let sign = if n < 0 {
        seq!['-']
    } else {
        seq![]
    };
    let mag: nat = if n < 0 {
        (-n) as nat
    } else {
        n as nat
    };
    sign + radix_prefix(radix) + digits_of(mag, radix)
}

pub open spec fn is_dec_digit(c: char) -> bool {
    '0' <= c && c <= '9'
}

proof fn lemma_digits_of(n: nat, radix: nat)
    requires
        radix == 2 || radix == 8 || radix == 10 || radix == 16,
    ensures
        digits_of(n, radix).len() > 0,
        all_digits(digits_of(n, radix), radix as int),
        digits_value(digits_of(n, radix), radix as int) == n,
        radix <= 10 ==> forall|i: int|
            0 <= i < digits_of(n, radix).len() ==> is_dec_digit(#[trigger] digits_of(n, radix)[i]),
        forall|i: int|
            0 <= i < digits_of(n, radix).len() ==> (#[trigger] digits_of(n, radix)[i]) != '-'
                && digits_of(n, radix)[i] != '+',
    decreases n,
{
    let s = digits_of(n, radix);
    if n < radix {
        lemma_digit_char(n as int);
        assert(s.drop_last() =~= Seq::<char>::empty());
        assert(digits_value(s, radix as int) == digits_value(s.drop_last(), radix as int) * radix
            + digit_value(s.last()));
    } else {
        let q = n / radix;
        let m = n % radix;
        lemma_fundamental_div_mod(n as int, radix as int);
        lemma_digits_of(q, radix);
        lemma_digit_char(m as int);
        assert(s.drop_last() == digits_of(q, radix));
        assert(s.last() == digit_char(m as int));
        assert forall|i: int| 0 <= i < s.len() implies digit_value(#[trigger] s[i]) < radix by {
            if i < s.len() - 1 {
                assert(s[i] == digits_of(q, radix)[i]);
            }
        }
    }
}

proof fn lemma_without_plain(s: Seq<char>, c: char)
    requires
        forall|i: int| 0 <= i < s.len() ==> s[i] != c,
    ensures
        without(s, c) == s,
    decreases s.len(),
{
    if s.len() > 0 {
        lemma_without_plain(s.drop_last(), c);
        assert(s.drop_last().push(s.last()) =~= s);
    }
}

proof fn lemma_without_leading(s: Seq<char>, c: char)
    ensures
        without(seq![c] + s, c) == without(s, c),
    decreases s.len(),
{
    if s.len() > 0 {
        assert((seq![c] + s).drop_last() =~= seq![c] + s.drop_last());
        assert((seq![c] + s).last() == s.last());
        lemma_without_leading(s.drop_last(), c);
    } else {
        assert(seq![c] + s =~= seq![c]);
        assert(seq![c].drop_last() =~= Seq::<char>::empty());
        assert(without(Seq::<char>::empty(), c) == Seq::<char>::empty());
    }
}

/// Digits `d` of `radix` after the radix prefix, with a `-` first where `neg`.
pub open spec fn written(neg: bool, radix: nat, d: Seq<char>) -> Seq<char> {
    let sign = if neg {
        seq!['-']
    } else {
        seq![]
    };
    sign + radix_prefix(radix) + d
}

/// Any digits of `radix` (leading zeros and either case of letters
/// allowed), after the `0x`, `0o` or `0b` prefix of that radix (none for
/// decimal) and an optional `-`, read back through `parse_integer_auto` as
/// the value they spell, negated after a `-`, wherever that value fits.
pub proof fn lemma_auto_int_reads(neg: bool, radix: nat, d: Seq<char>)
    requires
        radix == 2 || radix == 8 || radix == 10 || radix == 16,
        d.len() > 0,
        all_digits(d, radix as int),
        digits_value(d, radix as int) <= i32::MAX,
    ensures
        auto_int(written(neg, radix, d)) == Some(
            if neg {
                -digits_value(d, radix as int)
            } else {
                digits_value(d, radix as int)
            },
        ),
{
    let v = digits_value(d, radix as int);
    lemma_digits_value_nonneg(d, radix as int);
    let p = radix_prefix(radix);
    let s = written(neg, radix, d);
    assert forall|i: int| 0 <= i < d.len() implies #[trigger] d[i] != '-' && d[i] != '+' by {
        assert(digit_value(d[i]) < radix);
    }
    let body = p + d;
    assert forall|i: int| 0 <= i < body.len() implies body[i] != '-' by {
        if i >= p.len() {
            assert(body[i] == d[i - p.len()]);
        }
    }
    lemma_without_plain(body, '-');
    if neg {
        assert(s =~= seq!['-'] + body);
        lemma_without_leading(body, '-');
    } else {
        assert(s =~= body);
        assert(s[0] != '-') by {
            if p.len() == 0 {
                assert(s[0] == d[0]);
            }
        }
    }
    let t = without(s, '-');
    assert(t == body);
    if radix != 10 {
        assert(t.skip(2) =~= d);
        assert(d[0] == t.skip(2)[0]);
    } else {
        assert(t =~= d);
        assert(!has_hex_letter(t)) by {
            assert forall|i: int| 0 <= i < t.len() implies !is_hex_letter(#[trigger] t[i]) by {
                assert(digit_value(d[i]) < 10);
            }
        }
        if t.len() >= 2 {
            assert(digit_value(d[1]) < 10);
        }
    }
    assert(radix_parse(d, radix as int) == Some(v)) by {
        if d.len() == 1 {
            assert(d[0] != '+' && d[0] != '-');
        }
    }
}

/// Every integer but `i32::MIN`, written in decimal, `0x` hexadecimal, `0o`
/// octal or `0b` binary, with a `-` where it is negative, reads back as
/// itself through `parse_integer_auto`.
pub proof fn lemma_auto_int_round_trip(n: int, radix: nat)
    requires
        i32::MIN < n <= i32::MAX,
        radix == 2 || radix == 8 || radix == 10 || radix == 16,
    ensures
        auto_int(int_text(n, radix)) == Some(n),
{
    let mag: nat = if n < 0 {
        (-n) as nat
    } else {
        n as nat
    };
    lemma_digits_of(mag, radix);
    assert(int_text(n, radix) == written(n < 0, radix, digits_of(mag, radix)));
    lemma_auto_int_reads(n < 0, radix, digits_of(mag, radix));
}
} // verus!
