//! Decimal text codec for the checkpoint file.
//!
//! A distance of `nm` nanometers is written as the decimal text of the same
//! distance in meters: the whole meters, then, when the nanometer remainder
//! is not zero, a dot and the fractional digits with trailing zeros removed.
//! Reading accepts exactly that shape and yields the nanometer count back.

use vstd::prelude::*;
use vstd::string::StrSliceExecFns;
use vstd::string::StringExecFns;

verus! {

/// Nanometers per meter: the resolution of the running total.
pub const NANOS_PER_METER: u64 = 1_000_000_000;

/// `c` is a decimal digit.
pub open spec fn is_dec_digit(c: char) -> bool {
    c == '0' || c == '1' || c == '2' || c == '3' || c == '4' || c == '5' || c == '6' || c == '7'
        || c == '8' || c == '9'
}

/// The numeric value of the decimal digit `c`.
pub open spec fn digit_val(c: char) -> nat {
    if c == '0' {
        0
    } else if c == '1' {
        1
    } else if c == '2' {
        2
    } else if c == '3' {
        3
    } else if c == '4' {
        4
    } else if c == '5' {
        5
    } else if c == '6' {
        6
    } else if c == '7' {
        7
    } else if c == '8' {
        8
    } else {
        9
    }
}

/// The decimal digit with value `d`.
pub open spec fn digit_char(d: nat) -> char {
    if d == 0 {
        '0'
    } else if d == 1 {
        '1'
    } else if d == 2 {
        '2'
    } else if d == 3 {
        '3'
    } else if d == 4 {
        '4'
    } else if d == 5 {
        '5'
    } else if d == 6 {
        '6'
    } else if d == 7 {
        '7'
    } else if d == 8 {
        '8'
    } else {
        '9'
    }
}

/// Every character of `s` is a decimal digit.
pub open spec fn all_dec_digits(s: Seq<char>) -> bool {
    forall|i: int| 0 <= i < s.len() ==> is_dec_digit(#[trigger] s[i])
}

/// The value of a digit string, most significant digit first.
pub open spec fn digits_val(s: Seq<char>) -> nat
    decreases s.len(),
{
    if s.len() == 0 {
        0
    } else {
        digits_val(s.drop_last()) * 10 + digit_val(s.last())
    }
}

/// The shortest decimal text of `n`: no leading zero unless `n` is zero.
pub open spec fn dec_seq(n: nat) -> Seq<char>
    decreases n,
{
    if n < 10 {
        seq![digit_char(n)]
    } else {
        dec_seq(n / 10).push(digit_char(n % 10))
    }
}

/// The decimal text of `n` padded with leading zeros to exactly `width`
/// digits; digits above the width are discarded.
pub open spec fn dec_seq_pad(n: nat, width: nat) -> Seq<char>
    decreases width,
{
    if width == 0 {
        Seq::<char>::empty()
    } else {
        dec_seq_pad(n / 10, (width - 1) as nat).push(digit_char(n % 10))
    }
}

/// `s` without its trailing `'0'` characters.
pub open spec fn trim_zeros(s: Seq<char>) -> Seq<char>
    decreases s.len(),
{
    if s.len() > 0 && s.last() == '0' {
        trim_zeros(s.drop_last())
    } else {
        s
    }
}

/// Ten to the `k`.
pub open spec fn pow10(k: nat) -> nat
    decreases k,
{
    if k == 0 {
        1
    } else {
        10 * pow10((k - 1) as nat)
    }
}

/// Nine decimal digits cover one meter of nanometers.
pub proof fn lemma_pow10_9()
    ensures
        pow10(9) == 1_000_000_000,
{
    reveal_with_fuel(pow10, 10);
}

/// The checkpoint text of a total of `nm` nanometers: meters as decimal
/// text, with a fractional part exactly when the remainder is not zero.
pub open spec fn format_meters_spec(nm: nat) -> Seq<char> {
    let whole = nm / (NANOS_PER_METER as nat);
    let frac = nm % (NANOS_PER_METER as nat);
    if frac == 0 {
        dec_seq(whole)
    } else {
        dec_seq(whole) + seq!['.'] + trim_zeros(dec_seq_pad(frac, 9))
    }
}

/// The index of the first `'.'` in `s`, or `s.len()` when there is none.
pub open spec fn dot_index(s: Seq<char>) -> int
    decreases s.len(),
{
    if s.len() == 0 {
        0
    } else if s[0] == '.' {
        0
    } else {
        1 + dot_index(s.drop_first())
    }
}

/// `s` has the shape this codec writes: one or more whole-meter digits,
/// optionally followed by a dot and one to nine fractional digits.
pub open spec fn valid_meters_text(s: Seq<char>) -> bool {
    let i = dot_index(s);
    if i == s.len() {
        s.len() > 0 && all_dec_digits(s)
    } else {
        let whole = s.subrange(0, i);
        let frac = s.subrange(i + 1, s.len() as int);
        whole.len() > 0 && all_dec_digits(whole) && 1 <= frac.len() <= 9 && all_dec_digits(frac)
    }
}

/// The nanometer value of a text of valid shape.
pub open spec fn meters_text_val(s: Seq<char>) -> nat {
    let i = dot_index(s);
    if i == s.len() {
        digits_val(s) * (NANOS_PER_METER as nat)
    } else {
        let whole = s.subrange(0, i);
        let frac = s.subrange(i + 1, s.len() as int);
        digits_val(whole) * (NANOS_PER_METER as nat) + digits_val(frac) * pow10(
            (9 - frac.len()) as nat,
        )
    }
}

/// What reading a checkpoint text yields: the nanometer value when the text
/// has valid shape and the value fits, nothing otherwise.
pub open spec fn parse_meters_spec(s: Seq<char>) -> Option<u64> {
    if valid_meters_text(s) && meters_text_val(s) <= u64::MAX {
        Some((meters_text_val(s)) as u64)
    } else {
        None
    }
}

/// The one-character text of the decimal digit `d`.
fn digit_str(d: u64) -> (s: &'static str)
    requires
        d < 10,
    ensures
        s@ =~= seq![digit_char(d as nat)],
{
    let r: &'static str = match d {
        0 => "0",
        1 => "1",
        2 => "2",
        3 => "3",
        4 => "4",
        5 => "5",
        6 => "6",
        7 => "7",
        8 => "8",
        _ => "9",
    };
    proof {
        reveal_strlit("0");
        reveal_strlit("1");
        reveal_strlit("2");
        reveal_strlit("3");
        reveal_strlit("4");
        reveal_strlit("5");
        reveal_strlit("6");
        reveal_strlit("7");
        reveal_strlit("8");
        reveal_strlit("9");
    }
    r
}

/// Formats `n` as shortest decimal text.
pub fn format_u64(n: u64) -> (s: String)
    ensures
        s@ == dec_seq(n as nat),
    decreases n,
{
    if n < 10 {
        let mut s = String::new();
        s.append(digit_str(n));
        proof {
            assert(s@ =~= dec_seq(n as nat));
        }
        s
    } else {
        let mut s = format_u64(n / 10);
        s.append(digit_str(n % 10));
        proof {
            assert(s@ =~= dec_seq(n as nat));
        }
        s
    }
}

/// Formats `n` as decimal text padded with leading zeros to `width` digits.
pub fn format_padded(n: u64, width: u64) -> (s: String)
    ensures
        s@ == dec_seq_pad(n as nat, width as nat),
    decreases width,
{
    if width == 0 {
        String::new()
    } else {
        let mut s = format_padded(n / 10, width - 1);
        s.append(digit_str(n % 10));
        proof {
            assert(s@ =~= dec_seq_pad(n as nat, width as nat));
        }
        s
    }
}

/// Formats a non-zero nanometer remainder as fractional digits with the
/// trailing zeros removed.
fn format_frac(frac: u64) -> (s: String)
    requires
        0 < frac < 1_000_000_000,
    ensures
        s@ == trim_zeros(dec_seq_pad(frac as nat, 9)),
{
    let mut f: u64 = frac;
    let mut width: u64 = 9;
    proof {
        lemma_pow10_9();
    }
    while f % 10 == 0
        invariant
            0 < f < pow10(width as nat),
            width <= 9,
            trim_zeros(dec_seq_pad(f as nat, width as nat)) == trim_zeros(
                dec_seq_pad(frac as nat, 9),
            ),
        decreases f,
    {
        proof {
            assert(width >= 1) by {
                if width == 0 {
                    assert(pow10(0) == 1);
                }
            }
            let shorter = dec_seq_pad((f / 10) as nat, (width - 1) as nat);
            assert(dec_seq_pad(f as nat, width as nat) == shorter.push('0'));
            assert(shorter.push('0').last() == '0');
            assert(shorter.push('0').drop_last() =~= shorter);
            assert(trim_zeros(shorter.push('0')) == trim_zeros(shorter));
            assert(pow10(width as nat) == 10 * pow10((width - 1) as nat));
            vstd::arithmetic::div_mod::lemma_multiply_divide_lt(
                f as int,
                10,
                pow10((width - 1) as nat) as int,
            );
        }
        f = f / 10;
        width = width - 1;
    }
    let s = format_padded(f, width);
    proof {
        assert(dec_seq_pad(f as nat, width as nat).len() > 0 ==> dec_seq_pad(
            f as nat,
            width as nat,
        ).last() == digit_char((f % 10) as nat));
        assert(trim_zeros(dec_seq_pad(f as nat, width as nat)) == dec_seq_pad(
            f as nat,
            width as nat,
        ));
    }
    s
}

/// Ten to any power is at least one.
pub proof fn lemma_pow10_pos(k: nat)
    ensures
        pow10(k) >= 1,
    decreases k,
{
    if k > 0 {
        lemma_pow10_pos((k - 1) as nat);
    }
}

/// Ten to a larger power is at least as large.
pub proof fn lemma_pow10_monotone(a: nat, b: nat)
    requires
        a <= b,
    ensures
        pow10(a) <= pow10(b),
    decreases b,
{
    if a < b {
        lemma_pow10_monotone(a, (b - 1) as nat);
        lemma_pow10_pos((b - 1) as nat);
    }
}

/// Powers of ten multiply by adding exponents.
pub proof fn lemma_pow10_add(a: nat, b: nat)
    ensures
        pow10(a) * pow10(b) == pow10(a + b),
    decreases a,
{
    if a == 0 {
        assert(pow10(0) == 1);
    } else {
        lemma_pow10_add((a - 1) as nat, b);
        assert((10 * pow10((a - 1) as nat)) * pow10(b) == 10 * (pow10((a - 1) as nat) * pow10(
            b,
        ))) by (nonlinear_arith);
        assert(pow10(a) == 10 * pow10((a - 1) as nat));
        assert(pow10(a + b) == 10 * pow10((a + b - 1) as nat));
        assert((a - 1) as nat + b == (a + b - 1) as nat);
    }
}

/// Any index with a dot at it and none before it is `dot_index`.
pub proof fn lemma_dot_index_unique(s: Seq<char>, k: int)
    requires
        0 <= k <= s.len(),
        k < s.len() ==> s[k] == '.',
        forall|j: int| 0 <= j < k ==> s[j] != '.',
    ensures
        k == dot_index(s),
    decreases s.len(),
{
    if s.len() == 0 {
    } else if s[0] == '.' {
        assert(k == 0);
    } else {
        assert(k >= 1);
        let t = s.drop_first();
        assert forall|j: int| 0 <= j < k - 1 implies t[j] != '.' by {
            assert(t[j] == s[j + 1]);
        }
        if k - 1 < t.len() {
            assert(t[k - 1] == s[k]);
        }
        lemma_dot_index_unique(t, k - 1);
    }
}

/// A digit string is worth less than ten to its length.
pub proof fn lemma_digits_val_bound(s: Seq<char>)
    requires
        all_dec_digits(s),
    ensures
        digits_val(s) < pow10(s.len()),
    decreases s.len(),
{
    if s.len() == 0 {
    } else {
        let p = s.drop_last();
        assert(forall|i: int| 0 <= i < p.len() ==> p[i] == s[i]);
        lemma_digits_val_bound(p);
        assert(is_dec_digit(s.last()));
        assert(digit_val(s.last()) <= 9);
        assert(pow10(s.len()) == 10 * pow10(p.len()));
    }
}

/// A digit string splits at any index into a prefix scaled by a power of
/// ten plus a suffix.
pub proof fn lemma_digits_val_split(s: Seq<char>, k: int)
    requires
        0 <= k <= s.len(),
    ensures
        digits_val(s) == digits_val(s.subrange(0, k)) * pow10((s.len() - k) as nat) + digits_val(
            s.subrange(k, s.len() as int),
        ),
    decreases s.len(),
{
    if k == s.len() {
        assert(s.subrange(0, k) =~= s);
        assert(s.subrange(k, s.len() as int) =~= Seq::<char>::empty());
        assert(pow10(0) == 1);
        assert(digits_val(s) * 1 == digits_val(s));
    } else {
        let d = s.drop_last();
        lemma_digits_val_split(d, k);
        assert(s.subrange(0, k) =~= d.subrange(0, k));
        assert(s.subrange(k, s.len() as int).drop_last() =~= d.subrange(k, d.len() as int));
        assert(s.subrange(k, s.len() as int).last() == s.last());
        assert(s.subrange(k, s.len() as int).len() > 0);
        let pre = digits_val(s.subrange(0, k));
        let mid = digits_val(d.subrange(k, d.len() as int));
        let w = (d.len() - k) as nat;
        assert(digits_val(d) == pre * pow10(w) + mid);
        assert(digits_val(s) == digits_val(d) * 10 + digit_val(s.last()));
        assert(digits_val(s.subrange(k, s.len() as int)) == mid * 10 + digit_val(s.last()));
        assert((pre * pow10(w) + mid) * 10 == pre * (pow10(w) * 10) + mid * 10) by (nonlinear_arith);
        assert(pow10(w + 1) == pow10(w) * 10) by {
            lemma_pow10_add(w, 1);
            assert(pow10(1) == 10 * pow10(0));
            assert(pow10(0) == 1);
        }
        assert((s.len() - k) as nat == w + 1);
        assert(digits_val(s) == pre * pow10(w + 1) + (mid * 10 + digit_val(s.last())));
    }
}

/// The digit value of `c`, if it is one.
fn char_digit(c: char) -> (r: Option<u64>)
    ensures
        match r {
            Some(d) => is_dec_digit(c) && d == digit_val(c) && d < 10,
            None => !is_dec_digit(c),
        },
{
    match c {
        '0' => Some(0),
        '1' => Some(1),
        '2' => Some(2),
        '3' => Some(3),
        '4' => Some(4),
        '5' => Some(5),
        '6' => Some(6),
        '7' => Some(7),
        '8' => Some(8),
        '9' => Some(9),
        _ => None,
    }
}

/// Reads the digit run `s[lo..hi]` as a number; fails on a non-digit or a
/// value beyond `u64`.
fn parse_digits_range(s: &str, lo: usize, hi: usize) -> (r: Option<u64>)
    requires
        lo <= hi <= s@.len(),
    ensures
        ({
            let sub = s@.subrange(lo as int, hi as int);
            match r {
                Some(v) => all_dec_digits(sub) && v == digits_val(sub),
                None => !all_dec_digits(sub) || digits_val(sub) > u64::MAX,
            }
        }),
{
    let ghost sub = s@.subrange(lo as int, hi as int);
    let mut acc: u64 = 0;
    let mut i: usize = lo;
    while i < hi
        invariant
            lo <= i <= hi <= s@.len(),
            sub == s@.subrange(lo as int, hi as int),
            acc == digits_val(s@.subrange(lo as int, i as int)),
            all_dec_digits(s@.subrange(lo as int, i as int)),
        decreases hi - i,
    {
        let c = s.get_char(i);
        match char_digit(c) {
            None => {
                proof {
                    assert(sub[i - lo] == c);
                    assert(!all_dec_digits(sub));
                }
                return None;
            },
            Some(d) => {
                let limit = (u64::MAX - d) / 10;
                proof {
                    vstd::arithmetic::div_mod::lemma_fundamental_div_mod(
                        (u64::MAX - d) as int,
                        10,
                    );
                    assert(s@.subrange(lo as int, (i + 1) as int).drop_last() =~= s@.subrange(
                        lo as int,
                        i as int,
                    ));
                    assert(s@.subrange(lo as int, (i + 1) as int).last() == c);
                }
                if acc > limit {
                    proof {
                        let next = s@.subrange(lo as int, (i + 1) as int);
                        assert(digits_val(next) == acc * 10 + digit_val(c));
                        assert(acc * 10 >= (limit + 1) * 10);
                        assert(digits_val(next) > u64::MAX);
                        lemma_digits_val_split(sub, i + 1 - lo);
                        assert(sub.subrange(0, i + 1 - lo) =~= next);
                        let p = pow10((sub.len() - (i + 1 - lo)) as nat);
                        lemma_pow10_pos((sub.len() - (i + 1 - lo)) as nat);
                        assert(digits_val(next) * p >= digits_val(next) * 1) by (nonlinear_arith)
                            requires
                                p >= 1,
                                digits_val(next) >= 0,
                        ;
                        assert(digits_val(sub) > u64::MAX);
                    }
                    return None;
                }
                proof {
                    assert(acc * 10 + d <= u64::MAX);
                }
                acc = acc * 10 + d;
                i = i + 1;
            },
        }
    }
    proof {
        assert(s@.subrange(lo as int, i as int) =~= sub);
    }
    Some(acc)
}

/// Ten to the `k`, executably.
fn pow10_u64(k: u64) -> (r: u64)
    requires
        k <= 9,
    ensures
        r == pow10(k as nat),
{
    let mut r: u64 = 1;
    let mut j: u64 = 0;
    while j < k
        invariant
            j <= k <= 9,
            r == pow10(j as nat),
        decreases k - j,
    {
        proof {
            lemma_pow10_monotone(j as nat, 8);
            reveal_with_fuel(pow10, 10);
        }
        r = r * 10;
        j = j + 1;
    }
    r
}

/// Reads a checkpoint text: the nanometer total it denotes, or nothing
/// when the text is not of the written shape.
pub fn parse_meters(s: &str) -> (r: Option<u64>)
    ensures
        r == parse_meters_spec(s@),
{
    let n = s.unicode_len();
    let mut i: usize = 0;
    let mut k: usize = n;
    while i < n && k == n
        invariant
            i <= n,
            k <= n,
            n == s@.len(),
            k == n ==> forall|j: int| 0 <= j < i ==> s@[j] != '.',
            k < n ==> s@[k as int] == '.' && (forall|j: int| 0 <= j < k ==> s@[j] != '.'),
        decreases n - i + (if k == n {
            1int
        } else {
            0int
        }),
    {
        let c = s.get_char(i);
        if c == '.' {
            k = i;
        } else {
            i = i + 1;
        }
    }
    proof {
        lemma_dot_index_unique(s@, k as int);
        assert(NANOS_PER_METER == 1_000_000_000);
    }
    if n == 0 {
        return None;
    }
    if k == 0 && k < n {
        proof {
            assert(s@.subrange(0, 0) =~= Seq::<char>::empty());
        }
        return None;
    }
    match parse_digits_range(s, 0, k) {
        None => {
            proof {
                let whole = s@.subrange(0, k as int);
                if k == n {
                    assert(whole =~= s@);
                } else if all_dec_digits(whole) {
                    lemma_value_dominates_whole(s@, k as int);
                }
            }
            None
        },
        Some(w) => {
            if k == n {
                proof {
                    assert(s@.subrange(0, k as int) =~= s@);
                }
                let limit = u64::MAX / NANOS_PER_METER;
                proof {
                    vstd::arithmetic::div_mod::lemma_fundamental_div_mod(
                        u64::MAX as int,
                        NANOS_PER_METER as int,
                    );
                }
                if w > limit {
                    proof {
                        assert(w * (NANOS_PER_METER as int) >= (limit + 1) * (
                        NANOS_PER_METER as int));
                    }
                    None
                } else {
                    proof {
                        assert(w * (NANOS_PER_METER as int) <= limit * (NANOS_PER_METER as int));
                    }
                    Some(w * NANOS_PER_METER)
                }
            } else {
                let flen = n - k - 1;
                if flen == 0 || flen > 9 {
                    return None;
                }
                match parse_digits_range(s, k + 1, n) {
                    None => {
                        proof {
                            let frac = s@.subrange((k + 1) as int, n as int);
                            if all_dec_digits(frac) {
                                lemma_digits_val_bound(frac);
                                lemma_pow10_monotone(frac.len() as nat, 9);
                                lemma_pow10_9();
                            }
                        }
                        None
                    },
                    Some(f) => {
                        let ghost whole_seq = s@.subrange(0, k as int);
                        let ghost frac_seq = s@.subrange((k + 1) as int, n as int);
                        let p = pow10_u64(9 - flen as u64);
                        proof {
                            assert(frac_seq.len() == flen);
                            lemma_digits_val_bound(frac_seq);
                            lemma_pow10_pos((9 - frac_seq.len()) as nat);
                            lemma_pow10_add(frac_seq.len() as nat, (9 - frac_seq.len()) as nat);
                            lemma_pow10_9();
                            assert((f as int) * (p as int) < pow10(frac_seq.len() as nat) * (
                            p as int)) by (nonlinear_arith)
                                requires
                                    (f as int) < pow10(frac_seq.len() as nat),
                                    (p as int) >= 1,
                            ;
                        }
                        let fp = f * p;
                        let limit = (u64::MAX - fp) / NANOS_PER_METER;
                        proof {
                            vstd::arithmetic::div_mod::lemma_fundamental_div_mod(
                                (u64::MAX - fp) as int,
                                NANOS_PER_METER as int,
                            );
                        }
                        if w > limit {
                            proof {
                                assert(w * (NANOS_PER_METER as int) >= (limit + 1) * (
                                NANOS_PER_METER as int));
                            }
                            None
                        } else {
                            proof {
                                assert(w * (NANOS_PER_METER as int) <= limit * (
                                NANOS_PER_METER as int));
                            }
                            Some(w * NANOS_PER_METER + fp)
                        }
                    },
                }
            }
        },
    }
}

/// When the whole-meter digits alone outgrow `u64`, so does the value.
proof fn lemma_value_dominates_whole(s: Seq<char>, k: int)
    requires
        0 <= k < s.len(),
        k == dot_index(s),
    ensures
        meters_text_val(s) >= digits_val(s.subrange(0, k)),
{
    let whole = s.subrange(0, k);
    let w = digits_val(whole);
    assert(w * (NANOS_PER_METER as int) >= w * 1) by (nonlinear_arith)
        requires
            w >= 0,
    ;
}

/// Formats a total of `nm` nanometers as checkpoint text.
pub fn format_meters(nm: u64) -> (s: String)
    ensures
        s@ == format_meters_spec(nm as nat),
{
    let whole: u64 = nm / NANOS_PER_METER;
    let frac: u64 = nm % NANOS_PER_METER;
    let mut s = format_u64(whole);
    if frac != 0 {
        s.append(".");
        let fs = format_frac(frac);
        s.append(fs.as_str());
        proof {
            reveal_strlit(".");
            assert(s@ =~= format_meters_spec(nm as nat));
        }
    }
    s
}

/// The decimal text of `n` is digits only, nonempty, and reads back as `n`.
pub proof fn lemma_dec_seq_props(n: nat)
    ensures
        all_dec_digits(dec_seq(n)),
        dec_seq(n).len() >= 1,
        digits_val(dec_seq(n)) == n,
    decreases n,
{
    if n < 10 {
        assert(seq![digit_char(n)].drop_last() =~= Seq::<char>::empty());
        assert(digits_val(Seq::<char>::empty()) == 0);
        assert(seq![digit_char(n)].last() == digit_char(n));
        assert(digit_val(digit_char(n)) == n);
        assert(is_dec_digit(digit_char(n)));
        assert(digits_val(dec_seq(n)) == 0 * 10 + digit_val(digit_char(n)));
    } else {
        lemma_dec_seq_props(n / 10);
        let d = dec_seq(n / 10);
        let c = digit_char(n % 10);
        assert(d.push(c).drop_last() =~= d);
        assert(d.push(c).last() == c);
        assert(digit_val(c) == n % 10);
        assert(is_dec_digit(c));
        vstd::arithmetic::div_mod::lemma_fundamental_div_mod(n as int, 10);
        assert(digits_val(d.push(c)) == (n / 10) * 10 + n % 10);
        assert forall|i: int| 0 <= i < d.push(c).len() implies is_dec_digit(d.push(c)[i]) by {
            if i < d.len() {
                assert(d.push(c)[i] == d[i]);
            }
        }
    }
}

/// Padded decimal text of `n` is `w` digits and reads back as `n`.
pub proof fn lemma_pad_props(n: nat, w: nat)
    requires
        n < pow10(w),
    ensures
        all_dec_digits(dec_seq_pad(n, w)),
        dec_seq_pad(n, w).len() == w,
        digits_val(dec_seq_pad(n, w)) == n,
    decreases w,
{
    if w == 0 {
        assert(pow10(0) == 1);
    } else {
        assert(pow10(w) == 10 * pow10((w - 1) as nat));
        vstd::arithmetic::div_mod::lemma_multiply_divide_lt(
            n as int,
            10,
            pow10((w - 1) as nat) as int,
        );
        lemma_pad_props(n / 10, (w - 1) as nat);
        let d = dec_seq_pad(n / 10, (w - 1) as nat);
        let c = digit_char(n % 10);
        assert(d.push(c).drop_last() =~= d);
        assert(d.push(c).last() == c);
        assert(digit_val(c) == n % 10);
        assert(is_dec_digit(c));
        vstd::arithmetic::div_mod::lemma_fundamental_div_mod(n as int, 10);
        assert(digits_val(d.push(c)) == (n / 10) * 10 + n % 10);
        assert forall|i: int| 0 <= i < d.push(c).len() implies is_dec_digit(d.push(c)[i]) by {
            if i < d.len() {
                assert(d.push(c)[i] == d[i]);
            }
        }
    }
}

/// Removing trailing zeros keeps digits and divides out a power of ten.
pub proof fn lemma_trim_props(u: Seq<char>)
    requires
        all_dec_digits(u),
    ensures
        all_dec_digits(trim_zeros(u)),
        trim_zeros(u).len() <= u.len(),
        digits_val(u) == digits_val(trim_zeros(u)) * pow10((u.len() - trim_zeros(u).len()) as nat),
    decreases u.len(),
{
    if u.len() > 0 && u.last() == '0' {
        let d = u.drop_last();
        assert(forall|i: int| 0 <= i < d.len() ==> d[i] == u[i]);
        lemma_trim_props(d);
        let t = trim_zeros(u);
        assert(t == trim_zeros(d));
        assert(digits_val(u) == digits_val(d) * 10 + 0);
        let w = (d.len() - t.len()) as nat;
        assert((digits_val(t) * pow10(w)) * 10 == digits_val(t) * (pow10(w) * 10))
            by (nonlinear_arith);
        lemma_pow10_add(w, 1);
        assert(pow10(1) == 10 * pow10(0));
        assert(pow10(0) == 1);
        assert((u.len() - t.len()) as nat == w + 1);
    } else {
        assert(trim_zeros(u) == u);
        assert(pow10(0) == 1);
        assert(digits_val(u) * 1 == digits_val(u));
    }
}

/// Writing a total as checkpoint text and reading it back yields the
/// same total, exactly.
pub proof fn lemma_format_parse_round_trip(nm: u64)
    ensures
        parse_meters_spec(format_meters_spec(nm as nat)) == Some(nm),
{
    let whole = (nm as nat) / 1_000_000_000;
    let frac = (nm as nat) % 1_000_000_000;
    assert(NANOS_PER_METER == 1_000_000_000);
    lemma_dec_seq_props(whole);
    let wseq = dec_seq(whole);
    assert forall|j: int| 0 <= j < wseq.len() implies wseq[j] != '.' by {
        assert(is_dec_digit(wseq[j]));
    }
    vstd::arithmetic::div_mod::lemma_fundamental_div_mod(nm as int, 1_000_000_000);
    vstd::arithmetic::div_mod::lemma_multiply_divide_le(nm as int, 1_000_000_000, u64::MAX as int);
    if frac == 0 {
        lemma_dot_index_unique(wseq, wseq.len() as int);
        assert(valid_meters_text(wseq));
        assert(meters_text_val(wseq) == whole * 1_000_000_000);
        assert(meters_text_val(wseq) == nm);
    } else {
        lemma_pow10_9();
        lemma_pad_props(frac, 9);
        let u = dec_seq_pad(frac, 9);
        lemma_trim_props(u);
        let t = trim_zeros(u);
        if t.len() == 0 {
            assert(digits_val(u) == 0 * pow10(9));
            assert(false);
        }
        let sf = wseq + seq!['.'] + t;
        assert(format_meters_spec(nm as nat) == sf);
        assert(sf[wseq.len() as int] == '.');
        assert forall|j: int| 0 <= j < wseq.len() implies sf[j] != '.' by {
            assert(sf[j] == wseq[j]);
        }
        lemma_dot_index_unique(sf, wseq.len() as int);
        assert(sf.subrange(0, wseq.len() as int) =~= wseq);
        assert(sf.subrange(wseq.len() as int + 1, sf.len() as int) =~= t);
        assert(all_dec_digits(t));
        assert(1 <= t.len() <= 9);
        assert(valid_meters_text(sf));
        assert(digits_val(t) * pow10((9 - t.len()) as nat) == frac);
        assert(meters_text_val(sf) == whole * 1_000_000_000 + frac);
        assert(meters_text_val(sf) == nm);
    }
}

/// The view of an optional text.
pub open spec fn content_view(c: Option<&str>) -> Option<Seq<char>> {
    match c {
        Option::Some(s) => Option::Some(s@),
        Option::None => Option::None,
    }
}

/// The startup total, given what could be read from the checkpoint file:
/// the value the text denotes, or zero when the file was missing or the
/// text not of the written shape.
pub open spec fn load_total_spec(content: Option<Seq<char>>) -> u64 {
    match content {
        Option::None => 0,
        Option::Some(s) => match parse_meters_spec(s) {
            Option::Some(v) => v,
            Option::None => 0,
        },
    }
}

/// Seeds the total from the checkpoint file content, absorbing every
/// read failure as zero rather than surfacing it.
pub fn load_total(content: Option<&str>) -> (t: u64)
    ensures
        t == load_total_spec(content_view(content)),
{
    match content {
        None => 0,
        Some(s) => match parse_meters(s) {
            Some(v) => v,
            None => 0,
        },
    }
}

} // verus!
