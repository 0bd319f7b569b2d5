//! The file-name grammar of the appender.
//!
//! A log file for prefix `p` and date `d` is named `p-YYYYMMDD.log`, where
//! the eight digits are the zero-padded decimal code of the date.  This
//! module builds such names, recognises them, and reads the code back; the
//! two directions are proved inverse to each other, which is what lets the
//! retention pass reason about directory listings purely through codes.

use vstd::arithmetic::div_mod::lemma_breakdown;
use vstd::arithmetic::div_mod::lemma_div_basics_2;
use vstd::arithmetic::div_mod::lemma_div_denominator;
use vstd::arithmetic::div_mod::lemma_fundamental_div_mod;
use vstd::arithmetic::div_mod::lemma_fundamental_div_mod_converse;
use vstd::arithmetic::div_mod::lemma_mod_division_less_than_divisor;
use vstd::prelude::*;

use crate::date::Date;

verus! {

/// The decimal digit characters `'0'..='9'`.
pub open spec fn is_digit_char(c: char) -> bool {
    48 <= c as u32 <= 57
}

/// Numeric value of a decimal digit character.
pub open spec fn digit_val(c: char) -> int {
    c as u32 - 48
}

/// The character that spells a decimal digit.
pub open spec fn digit_char(d: int) -> char {
    (48 + d) as char
}

pub open spec fn pow10(w: nat) -> int
    decreases w,
{
    if w == 0 {
        1
    } else {
        10 * pow10((w - 1) as nat)
    }
}

/// The `w` low decimal digits of `n`, most significant first (zero-padded).
pub open spec fn decimal_digits(n: int, w: nat) -> Seq<char>
    decreases w,
{
    if w == 0 {
        Seq::empty()
    } else {
        decimal_digits(n / 10, (w - 1) as nat).push(digit_char(n % 10))
    }
}

/// The number a sequence of digit characters spells.
pub open spec fn decimal_value(s: Seq<char>) -> int
    decreases s.len(),
{
    if s.len() == 0 {
        0
    } else {
        decimal_value(s.drop_last()) * 10 + digit_val(s.last())
    }
}

/// The log-file name for a prefix and an eight-digit code:
/// `{prefix}-{code:08}.log`.
pub open spec fn spec_log_name(prefix: Seq<char>, code: int) -> Seq<char> {
    prefix + seq!['-'] + decimal_digits(code, 8) + seq!['.', 'l', 'o', 'g']
}

/// The log-file name for a prefix and a date.
pub open spec fn spec_log_filename(prefix: Seq<char>, date: Date) -> Seq<char> {
    spec_log_name(prefix, date.code())
}

/// Whether `name` is a log-file name of this appender: the prefix taken
/// literally, a dash, exactly eight decimal digits, and the `.log` suffix.
pub open spec fn is_log_name(name: Seq<char>, prefix: Seq<char>) -> bool {
    &&& name.len() == prefix.len() + 13
    &&& name.subrange(0, prefix.len() as int) == prefix
    &&& name[prefix.len() as int] == '-'
    &&& forall|i: int|
        prefix.len() + 1 <= i < prefix.len() + 9 ==> is_digit_char(#[trigger] name[i])
    &&& name.subrange(prefix.len() as int + 9, name.len() as int) == seq!['.', 'l', 'o', 'g']
}

/// The code spelled by the digit block of a log-file name.
pub open spec fn name_code(name: Seq<char>, prefix: Seq<char>) -> int {
    decimal_value(name.subrange(prefix.len() as int + 1, prefix.len() as int + 9))
}

pub proof fn lemma_pow10_pos(w: nat)
    ensures
        pow10(w) >= 1,
    decreases w,
{
    if w > 0 {
        lemma_pow10_pos((w - 1) as nat);
    }
}

pub proof fn lemma_pow10_mono(a: nat, b: nat)
    requires
        a <= b,
    ensures
        pow10(a) <= pow10(b),
    decreases b,
{
    if a < b {
        lemma_pow10_mono(a, (b - 1) as nat);
        lemma_pow10_pos((b - 1) as nat);
    }
}

pub proof fn lemma_pow10_8()
    ensures
        pow10(8) == 100000000,
        pow10(7) == 10000000,
{
    reveal_with_fuel(pow10, 9);
}

/// Characters with equal code points are equal.
proof fn lemma_char_code_injective(a: char, b: char)
    requires
        a as u32 == b as u32,
    ensures
        a == b,
{
}

/// Padded digit blocks really consist of digit characters and have the
/// requested width.
pub proof fn lemma_decimal_digits_shape(n: int, w: nat)
    ensures
        decimal_digits(n, w).len() == w,
        forall|i: int| 0 <= i < w ==> is_digit_char(#[trigger] decimal_digits(n, w)[i]),
    decreases w,
{
    if w > 0 {
        lemma_decimal_digits_shape(n / 10, (w - 1) as nat);
        let s = decimal_digits(n, w);
        let t = decimal_digits(n / 10, (w - 1) as nat);
        assert(0 <= n % 10 < 10);
        assert(forall|i: int| 0 <= i < w - 1 ==> s[i] == #[trigger] t[i]);
        assert(is_digit_char(digit_char(n % 10)));
    }
}

/// Reading a padded digit block back yields the number it was made from.
pub proof fn lemma_decimal_value_of_digits(n: int, w: nat)
    requires
        0 <= n < pow10(w),
    ensures
        decimal_value(decimal_digits(n, w)) == n,
    decreases w,
{
    if w == 0 {
        assert(n == 0);
    } else {
        assert(pow10(w) == 10 * pow10((w - 1) as nat));
        assert(n / 10 < pow10((w - 1) as nat)) by (nonlinear_arith)
            requires
                0 <= n < 10 * pow10((w - 1) as nat),
        ;
        lemma_decimal_value_of_digits(n / 10, (w - 1) as nat);
        let s = decimal_digits(n, w);
        let t = decimal_digits(n / 10, (w - 1) as nat);
        assert(s.drop_last() =~= t);
        assert(digit_val(digit_char(n % 10)) == n % 10);
        lemma_fundamental_div_mod(n, 10);
    }
}

/// A sequence of eight (or any `w`) digit characters is the padded
/// spelling of the number it spells: the digit block determines the code
/// and vice versa.
pub proof fn lemma_digits_of_decimal_value(s: Seq<char>)
    requires
        forall|i: int| 0 <= i < s.len() ==> is_digit_char(#[trigger] s[i]),
    ensures
        0 <= decimal_value(s) < pow10(s.len()),
        decimal_digits(decimal_value(s), s.len()) == s,
    decreases s.len(),
{
    if s.len() == 0 {
        assert(decimal_digits(0, 0) =~= s);
    } else {
        let t = s.drop_last();
        lemma_digits_of_decimal_value(t);
        let v = decimal_value(s);
        let c = s.last();
        assert(is_digit_char(c)) by {
            assert(c == s[s.len() - 1]);
        }
        assert(v == decimal_value(t) * 10 + digit_val(c));
        assert(0 <= digit_val(c) < 10);
        assert(0 <= v < pow10(s.len())) by {
            assert(pow10(s.len()) == 10 * pow10(t.len()));
            assert(decimal_value(t) * 10 <= (pow10(t.len()) - 1) * 10) by (nonlinear_arith)
                requires
                    decimal_value(t) <= pow10(t.len()) - 1,
            ;
        }
        lemma_fundamental_div_mod_converse(v, 10, decimal_value(t), digit_val(c));
        assert(v / 10 == decimal_value(t));
        assert(v % 10 == digit_val(c));
        lemma_char_code_injective(digit_char(digit_val(c)), c);
        assert(decimal_digits(v, s.len()) =~= t.push(c));
        assert(t.push(c) =~= s);
    }
}

/// A generated log-file name matches the log-file grammar for the same
/// prefix, and its digit block reads back as the code it was built from.
pub proof fn lemma_log_name_round_trip(prefix: Seq<char>, code: int)
    requires
        0 <= code < 100000000,
    ensures
        is_log_name(spec_log_name(prefix, code), prefix),
        name_code(spec_log_name(prefix, code), prefix) == code,
{
    lemma_pow10_8();
    let n = spec_log_name(prefix, code);
    lemma_decimal_digits_shape(code, 8);
    assert(n.len() == prefix.len() + 13);
    assert(n.subrange(0, prefix.len() as int) =~= prefix);
    assert(n.subrange(prefix.len() as int + 1, prefix.len() as int + 9) =~= decimal_digits(code, 8));
    assert(n.subrange(prefix.len() as int + 9, n.len() as int) =~= seq!['.', 'l', 'o', 'g']);
    lemma_decimal_value_of_digits(code, 8);
}

/// Every name that matches the grammar is exactly the generated name for
/// the code its digits spell; the grammar has no other inhabitants.
pub proof fn lemma_log_name_parse(name: Seq<char>, prefix: Seq<char>)
    requires
        is_log_name(name, prefix),
    ensures
        0 <= name_code(name, prefix) < 100000000,
        spec_log_name(prefix, name_code(name, prefix)) == name,
{
    lemma_pow10_8();
    let s = name.subrange(prefix.len() as int + 1, prefix.len() as int + 9);
    lemma_digits_of_decimal_value(s);
    let code = decimal_value(s);
    assert(decimal_digits(code, 8) == s);
    assert(spec_log_name(prefix, code) =~= name) by {
        assert(forall|i: int|
            0 <= i < prefix.len() ==> name[i] == #[trigger] prefix[i]) by {
            assert(forall|i: int|
                0 <= i < prefix.len() ==> name.subrange(0, prefix.len() as int)[i] == #[trigger] name[i]);
        }
        assert(forall|i: int|
            0 <= i < 8 ==> #[trigger] s[i] == name[prefix.len() + 1 + i]);
        let suffix = name.subrange(prefix.len() as int + 9, name.len() as int);
        assert(suffix[0] == '.' && suffix[1] == 'l' && suffix[2] == 'o' && suffix[3] == 'g');
        assert(forall|i: int|
            0 <= i < 4 ==> #[trigger] suffix[i] == name[prefix.len() + 9 + i]);
    }
}

/// The eight digit characters of an eight-digit code, written out as the
/// explicit divisions an implementation computes.
proof fn lemma_digits8_unrolled(c: int)
    requires
        0 <= c < 100000000,
    ensures
        decimal_digits(c, 8) == seq![
            digit_char(c / 10000000),
            digit_char((c / 1000000) % 10),
            digit_char((c / 100000) % 10),
            digit_char((c / 10000) % 10),
            digit_char((c / 1000) % 10),
            digit_char((c / 100) % 10),
            digit_char((c / 10) % 10),
            digit_char(c % 10),
        ],
{
    reveal_with_fuel(decimal_digits, 9);
    lemma_div_denominator(c, 10, 10);
    lemma_div_denominator(c, 100, 10);
    lemma_div_denominator(c, 1000, 10);
    lemma_div_denominator(c, 10000, 10);
    lemma_div_denominator(c, 100000, 10);
    lemma_div_denominator(c, 1000000, 10);
    lemma_div_denominator(c, 10000000, 10);
    assert(c / 100000000 == 0);
    assert(c / 10000000 < 10) by (nonlinear_arith)
        requires
            0 <= c < 100000000,
    ;
    assert(c / 10000000 % 10 == c / 10000000);
}

/// Maps a decimal digit to the string that spells it.
fn digit_str(d: u32) -> (r: &'static str)
    requires
        d < 10,
    ensures
        r@ == seq![digit_char(d as int)],
{
    let r: &'static str = if d == 0 {
        "0"
    } else if d == 1 {
        "1"
    } else if d == 2 {
        "2"
    } else if d == 3 {
        "3"
    } else if d == 4 {
        "4"
    } else if d == 5 {
        "5"
    } else if d == 6 {
        "6"
    } else if d == 7 {
        "7"
    } else if d == 8 {
        "8"
    } else {
        "9"
    };
    proof {
        reveal_strlit("0");
        reveal_strlit("1");
        reveal_strlit("2");
        reveal_strlit("3");
        reveal_strlit("4");
        reveal_strlit("5");
        reveal_strlit("6");
        reveal_strlit("7");
        reveal_strlit("8");
        reveal_strlit("9");
        lemma_char_code_injective(digit_char(d as int), r@[0]);
        assert(r@ =~= seq![digit_char(d as int)]);
    }
    r
}

/// Builds the log-file name `{prefix}-{code:08}.log` for an eight-digit
/// code.
pub fn filename_for_code(prefix: &str, code: u32) -> (r: String)
    requires
        code < 100000000,
    ensures
        r@ == spec_log_name(prefix@, code as int),
{
    let mut name = prefix.to_owned();
    name.append("-");
    let d7 = code / 10000000;
    let d6 = (code / 1000000) % 10;
    let d5 = (code / 100000) % 10;
    let d4 = (code / 10000) % 10;
    let d3 = (code / 1000) % 10;
    let d2 = (code / 100) % 10;
    let d1 = (code / 10) % 10;
    let d0 = code % 10;
    proof {
        assert(code / 10000000 < 10) by (nonlinear_arith)
            requires
                code < 100000000,
        ;
    }
    name.append(digit_str(d7));
    name.append(digit_str(d6));
    name.append(digit_str(d5));
    name.append(digit_str(d4));
    name.append(digit_str(d3));
    name.append(digit_str(d2));
    name.append(digit_str(d1));
    name.append(digit_str(d0));
    name.append(".log");
    proof {
        reveal_strlit("-");
        reveal_strlit(".log");
        lemma_digits8_unrolled(code as int);
        assert(name@ =~= spec_log_name(prefix@, code as int));
    }
    name
}

/// Builds the log-file name for a prefix and a date, e.g.
/// `foo-20220526.log` for prefix `foo` and 2022-05-26.
pub fn create_daily_log_filename(filename_prefix: &str, date: &Date) -> (r: String)
    requires
        date.wf(),
    ensures
        r@ == spec_log_filename(filename_prefix@, *date),
{
    filename_for_code(filename_prefix, date.code_u32())
}

/// Decides whether a directory entry is a log file of this appender:
/// returns the file name back exactly when it matches the log-file
/// grammar for the given prefix.
pub fn is_log_file(filename: &str, prefix: &str) -> (r: Option<String>)
    ensures
        r is Some <==> is_log_name(filename@, prefix@),
        r matches Some(n) ==> n@ == filename@,
{
    let flen = filename.unicode_len();
    let plen = prefix.unicode_len();
    if flen < 13 || flen - 13 != plen {
        return None;
    }
    let mut i: usize = 0;
    while i < plen
        invariant
            flen == filename@.len(),
            plen == prefix@.len(),
            flen == plen + 13,
            i <= plen,
            forall|j: int| 0 <= j < i ==> filename@[j] == prefix@[j],
        decreases plen - i,
    {
        if filename.get_char(i) != prefix.get_char(i) {
            proof {
                assert(filename@.subrange(0, plen as int)[i as int] != prefix@[i as int]);
            }
            return None;
        }
        i += 1;
    }
    if filename.get_char(plen) != '-' {
        return None;
    }
    let mut k: usize = 0;
    while k < 8
        invariant
            flen == filename@.len(),
            plen == prefix@.len(),
            flen == plen + 13,
            k <= 8,
            forall|j: int|
                plen + 1 <= j < plen + 1 + k ==> is_digit_char(#[trigger] filename@[j]),
        decreases 8 - k,
    {
        let c = filename.get_char(plen + 1 + k);
        let u = c as u32;
        if u < 48 || u > 57 {
            return None;
        }
        k += 1;
    }
    if filename.get_char(plen + 9) != '.' {
        proof {
            assert(filename@.subrange(plen as int + 9, flen as int)[0] != '.');
        }
        return None;
    }
    if filename.get_char(plen + 10) != 'l' {
        proof {
            assert(filename@.subrange(plen as int + 9, flen as int)[1] != 'l');
        }
        return None;
    }
    if filename.get_char(plen + 11) != 'o' {
        proof {
            assert(filename@.subrange(plen as int + 9, flen as int)[2] != 'o');
        }
        return None;
    }
    if filename.get_char(plen + 12) != 'g' {
        proof {
            assert(filename@.subrange(plen as int + 9, flen as int)[3] != 'g');
        }
        return None;
    }
    proof {
        assert(filename@.subrange(0, plen as int) =~= prefix@);
        assert(filename@.subrange(plen as int + 9, flen as int) =~= seq!['.', 'l', 'o', 'g']);
    }
    Some(filename.to_owned())
}

/// Reads the eight-digit code out of a name that matches the log-file
/// grammar.
pub fn log_name_code(filename: &str, prefix: &str) -> (r: u32)
    requires
        is_log_name(filename@, prefix@),
    ensures
        r as int == name_code(filename@, prefix@),
        r < 100000000,
{
    let flen = filename.unicode_len();
    let plen = prefix.unicode_len();
    let ghost digits: Seq<char> = filename@.subrange(plen as int + 1, plen as int + 9);
    let mut acc: u32 = 0;
    let mut k: usize = 0;
    proof {
        lemma_pow10_8();
        assert(digits.take(0) =~= Seq::<char>::empty());
    }
    while k < 8
        invariant
            flen == filename@.len(),
            plen == prefix@.len(),
            is_log_name(filename@, prefix@),
            digits == filename@.subrange(plen as int + 1, plen as int + 9),
            k <= 8,
            acc as int == decimal_value(digits.take(k as int)),
            (acc as int) < pow10(k as nat),
            pow10(7) == 10000000,
            pow10(8) == 100000000,
        decreases 8 - k,
    {
        let c = filename.get_char(plen + 1 + k);
        proof {
            assert(is_digit_char(filename@[plen as int + 1 + k as int]));
            assert(digits[k as int] == filename@[plen as int + 1 + k as int]);
            lemma_pow10_mono(k as nat, 7);
        }
        let d = (c as u32) - 48;
        acc = acc * 10 + d;
        k += 1;
        proof {
            assert(digits.take(k as int).drop_last() =~= digits.take(k as int - 1));
            assert(digits.take(k as int).last() == digits[k as int - 1]);
            assert(pow10(k as nat) == 10 * pow10((k - 1) as nat));
        }
    }
    proof {
        assert(digits.take(8) =~= digits);
    }
    acc
}

/// Strict lexicographic order on character sequences, comparing code
/// points position by position; the order a plain sort of names uses.
pub open spec fn lex_lt(a: Seq<char>, b: Seq<char>) -> bool
    decreases a.len(), b.len(),
{
    if b.len() == 0 {
        false
    } else if a.len() == 0 {
        true
    } else if (a.first() as u32) < (b.first() as u32) {
        true
    } else if (b.first() as u32) < (a.first() as u32) {
        false
    } else {
        lex_lt(a.drop_first(), b.drop_first())
    }
}

proof fn lemma_lex_lt_irreflexive(s: Seq<char>)
    ensures
        !lex_lt(s, s),
    decreases s.len(),
{
    if s.len() > 0 {
        lemma_lex_lt_irreflexive(s.drop_first());
    }
}

/// A common prefix neither makes nor breaks the order.
proof fn lemma_lex_common_prefix(p: Seq<char>, a: Seq<char>, b: Seq<char>)
    ensures
        lex_lt(p + a, p + b) == lex_lt(a, b),
    decreases p.len(),
{
    if p.len() == 0 {
        assert(p + a =~= a);
        assert(p + b =~= b);
    } else {
        assert((p + a).first() == p.first());
        assert((p + b).first() == p.first());
        assert((p + a).drop_first() =~= p.drop_first() + a);
        assert((p + b).drop_first() =~= p.drop_first() + b);
        lemma_lex_common_prefix(p.drop_first(), a, b);
    }
}

/// A common suffix after blocks of equal width neither makes nor breaks
/// the order.
proof fn lemma_lex_common_suffix(a: Seq<char>, b: Seq<char>, s: Seq<char>)
    requires
        a.len() == b.len(),
    ensures
        lex_lt(a + s, b + s) == lex_lt(a, b),
    decreases a.len(),
{
    if a.len() == 0 {
        assert(a + s =~= s);
        assert(b + s =~= s);
        lemma_lex_lt_irreflexive(s);
    } else {
        assert((a + s).first() == a.first());
        assert((b + s).first() == b.first());
        assert((a + s).drop_first() =~= a.drop_first() + s);
        assert((b + s).drop_first() =~= b.drop_first() + s);
        lemma_lex_common_suffix(a.drop_first(), b.drop_first(), s);
    }
}

/// A padded digit block starts with the most significant digit,
/// followed by the block of the remainder.
proof fn lemma_digits_msd(n: int, w: nat)
    requires
        w >= 1,
        0 <= n < pow10(w),
    ensures
        decimal_digits(n, w) == seq![digit_char(n / pow10((w - 1) as nat))] + decimal_digits(
            n % pow10((w - 1) as nat),
            (w - 1) as nat,
        ),
    decreases w,
{
    lemma_pow10_pos((w - 1) as nat);
    if w == 1 {
        lemma_div_basics_2(n);
        lemma_fundamental_div_mod_converse(n, 1, n, 0);
        assert(decimal_digits(n, 1) =~= seq![digit_char(n)] + decimal_digits(n % 1, 0));
    } else {
        let k = pow10((w - 2) as nat);
        lemma_pow10_pos((w - 2) as nat);
        assert(pow10((w - 1) as nat) == 10 * k);
        assert(n / 10 < pow10((w - 1) as nat)) by (nonlinear_arith)
            requires
                0 <= n < 10 * pow10((w - 1) as nat),
        ;
        lemma_digits_msd(n / 10, (w - 1) as nat);
        lemma_div_denominator(n, 10, k);
        lemma_breakdown(n, 10, k);
        lemma_mod_division_less_than_divisor(n / 10, k);
        lemma_mod_division_less_than_divisor(n, 10);
        lemma_fundamental_div_mod_converse(n % (10 * k), 10, (n / 10) % k, n % 10);
        assert(decimal_digits(n % (10 * k), (w - 1) as nat) == decimal_digits(
            (n / 10) % k,
            (w - 2) as nat,
        ).push(digit_char(n % 10)));
        assert(decimal_digits(n, w) =~= seq![digit_char(n / (10 * k))] + decimal_digits(
            n % (10 * k),
            (w - 1) as nat,
        ));
    }
}

/// Equal-width digit blocks compare lexicographically exactly as the
/// numbers they spell compare.
proof fn lemma_digits_order(n1: int, n2: int, w: nat)
    requires
        0 <= n1 < pow10(w),
        0 <= n2 < pow10(w),
    ensures
        lex_lt(decimal_digits(n1, w), decimal_digits(n2, w)) <==> n1 < n2,
    decreases w,
{
    if w > 0 {
        let k = pow10((w - 1) as nat);
        lemma_pow10_pos((w - 1) as nat);
        assert(pow10(w) == 10 * k);
        let h1 = n1 / k;
        let h2 = n2 / k;
        let r1 = n1 % k;
        let r2 = n2 % k;
        lemma_digits_msd(n1, w);
        lemma_digits_msd(n2, w);
        lemma_fundamental_div_mod(n1, k);
        lemma_fundamental_div_mod(n2, k);
        lemma_mod_division_less_than_divisor(n1, k);
        lemma_mod_division_less_than_divisor(n2, k);
        assert(0 <= h1 < 10 && 0 <= h2 < 10) by (nonlinear_arith)
            requires
                0 <= n1 < 10 * k,
                0 <= n2 < 10 * k,
                0 < k,
                h1 == n1 / k,
                h2 == n2 / k,
        ;
        let d1 = decimal_digits(n1, w);
        let d2 = decimal_digits(n2, w);
        assert(d1.first() == digit_char(h1));
        assert(d2.first() == digit_char(h2));
        if h1 < h2 {
            assert(n1 < n2) by (nonlinear_arith)
                requires
                    n1 == k * h1 + r1,
                    n2 == k * h2 + r2,
                    h1 < h2,
                    0 <= r1 < k,
                    0 <= r2 < k,
            ;
        } else if h2 < h1 {
            assert(n2 < n1) by (nonlinear_arith)
                requires
                    n1 == k * h1 + r1,
                    n2 == k * h2 + r2,
                    h2 < h1,
                    0 <= r1 < k,
                    0 <= r2 < k,
            ;
        } else {
            lemma_digits_order(r1, r2, (w - 1) as nat);
            assert(d1.drop_first() =~= decimal_digits(r1, (w - 1) as nat));
            assert(d2.drop_first() =~= decimal_digits(r2, (w - 1) as nat));
            assert(n1 < n2 <==> r1 < r2);
        }
    }
}

/// For two log-file names of the same appender, plain lexicographic
/// name order is exactly the chronological order of the dates their
/// digit blocks spell: sorting names is sorting dates, which is why the
/// retention plan may work on codes alone.
pub proof fn lemma_lex_order_is_code_order(name1: Seq<char>, name2: Seq<char>, prefix: Seq<char>)
    requires
        is_log_name(name1, prefix),
        is_log_name(name2, prefix),
    ensures
        lex_lt(name1, name2) <==> name_code(name1, prefix) < name_code(name2, prefix),
{
    lemma_pow10_8();
    lemma_log_name_parse(name1, prefix);
    lemma_log_name_parse(name2, prefix);
    let c1 = name_code(name1, prefix);
    let c2 = name_code(name2, prefix);
    let q = prefix + seq!['-'];
    let suffix = seq!['.', 'l', 'o', 'g'];
    let d1 = decimal_digits(c1, 8);
    let d2 = decimal_digits(c2, 8);
    lemma_decimal_digits_shape(c1, 8);
    lemma_decimal_digits_shape(c2, 8);
    assert(name1 =~= q + (d1 + suffix));
    assert(name2 =~= q + (d2 + suffix));
    lemma_lex_common_prefix(q, d1 + suffix, d2 + suffix);
    lemma_lex_common_suffix(d1, d2, suffix);
    lemma_digits_order(c1, c2, 8);
}

/// The path of a file inside a directory, joined with a `/` separator
/// unless the directory already ends with one or is empty.
pub open spec fn spec_log_path(directory: Seq<char>, filename: Seq<char>) -> Seq<char> {
    if directory.len() == 0 {
        filename
    } else if directory.last() == '/' {
        directory + filename
    } else {
        directory + seq!['/'] + filename
    }
}

/// Joins a directory and a log-file name into the path handed to the
/// file system.
pub fn create_daily_log_path(directory: &str, filename: &str) -> (r: String)
    ensures
        r@ == spec_log_path(directory@, filename@),
{
    let dlen = directory.unicode_len();
    if dlen == 0 {
        return filename.to_owned();
    }
    let mut path = directory.to_owned();
    if directory.get_char(dlen - 1) != '/' {
        path.append("/");
        proof {
            reveal_strlit("/");
            assert(path@ =~= directory@ + seq!['/']);
        }
    }
    path.append(filename);
    path
}

} // verus!
