//! Parser for Weave source text.
//!
//! A file is a sequence of field blocks, `name { param = number ... }`.
//! Whitespace separates tokens and is otherwise insignificant. Structural
//! errors are fatal to the whole parse; a malformed numeric literal is
//! not: it quietly becomes `0` (see `token_micros`).
use vstd::prelude::*;

use crate::model::FieldModel;
use crate::model::ParamSet;

verus! {

/// Whitespace: space, tab, newline, carriage return.
pub open spec fn is_ws_char(c: char) -> bool {
    c == ' ' || c == '\t' || c == '\n' || c == '\r'
}

/// A decimal digit.
pub open spec fn is_digit_char(c: char) -> bool {
    48 <= c as u32 <= 57
}

/// An ASCII letter.
pub open spec fn is_letter_char(c: char) -> bool {
    (65 <= c as u32 <= 90) || (97 <= c as u32 <= 122)
}

/// A character that may open an identifier.
pub open spec fn is_ident_start_char(c: char) -> bool {
    is_letter_char(c) || c == '_'
}

/// A character that may continue an identifier.
pub open spec fn is_ident_char(c: char) -> bool {
    is_ident_start_char(c) || is_digit_char(c)
}

/// A character that may stand in a value token: identifier characters
/// together with sign and decimal point.
pub open spec fn is_value_char(c: char) -> bool {
    is_ident_char(c) || c == '-' || c == '+' || c == '.'
}

fn ws_char(c: char) -> (r: bool)
    ensures
        r == is_ws_char(c),
{
    c == ' ' || c == '\t' || c == '\n' || c == '\r'
}

fn digit_char(c: char) -> (r: bool)
    ensures
        r == is_digit_char(c),
{
    let u = c as u32;
    48 <= u && u <= 57
}

fn ident_start_char(c: char) -> (r: bool)
    ensures
        r == is_ident_start_char(c),
{
    let u = c as u32;
    (65 <= u && u <= 90) || (97 <= u && u <= 122) || c == '_'
}

fn ident_char(c: char) -> (r: bool)
    ensures
        r == is_ident_char(c),
{
    ident_start_char(c) || digit_char(c)
}

fn value_char(c: char) -> (r: bool)
    ensures
        r == is_value_char(c),
{
    ident_char(c) || c == '-' || c == '+' || c == '.'
}

/// The first position at or after `i` that does not hold whitespace.
pub open spec fn ws_end(s: Seq<char>, i: int) -> int
    decreases s.len() - i,
{
    if 0 <= i < s.len() && is_ws_char(s[i]) {
        ws_end(s, i + 1)
    } else {
        i
    }
}

/// The first position at or after `i` that does not hold an identifier
/// character.
pub open spec fn ident_end(s: Seq<char>, i: int) -> int
    decreases s.len() - i,
{
    if 0 <= i < s.len() && is_ident_char(s[i]) {
        ident_end(s, i + 1)
    } else {
        i
    }
}

/// The first position at or after `i` that does not hold a value
/// character.
pub open spec fn value_end(s: Seq<char>, i: int) -> int
    decreases s.len() - i,
{
    if 0 <= i < s.len() && is_value_char(s[i]) {
        value_end(s, i + 1)
    } else {
        i
    }
}

/// `ws_end` yields the end of the maximal whitespace run from `i`.
pub proof fn lemma_ws_end(s: Seq<char>, i: int)
    requires
        0 <= i <= s.len(),
    ensures
        i <= ws_end(s, i) <= s.len(),
        forall|j: int| i <= j < ws_end(s, i) ==> is_ws_char(#[trigger] s[j]),
        ws_end(s, i) < s.len() ==> !is_ws_char(s[ws_end(s, i)]),
    decreases s.len() - i,
{
    if i < s.len() && is_ws_char(s[i]) {
        lemma_ws_end(s, i + 1);
    }
}

/// `ident_end` yields the end of the maximal identifier run from `i`.
pub proof fn lemma_ident_end(s: Seq<char>, i: int)
    requires
        0 <= i <= s.len(),
    ensures
        i <= ident_end(s, i) <= s.len(),
        forall|j: int| i <= j < ident_end(s, i) ==> is_ident_char(#[trigger] s[j]),
        ident_end(s, i) < s.len() ==> !is_ident_char(s[ident_end(s, i)]),
    decreases s.len() - i,
{
    if i < s.len() && is_ident_char(s[i]) {
        lemma_ident_end(s, i + 1);
    }
}

/// `value_end` yields the end of the maximal value-token run from `i`.
pub proof fn lemma_value_end(s: Seq<char>, i: int)
    requires
        0 <= i <= s.len(),
    ensures
        i <= value_end(s, i) <= s.len(),
        forall|j: int| i <= j < value_end(s, i) ==> is_value_char(#[trigger] s[j]),
        value_end(s, i) < s.len() ==> !is_value_char(s[value_end(s, i)]),
    decreases s.len() - i,
{
    if i < s.len() && is_value_char(s[i]) {
        lemma_value_end(s, i + 1);
    }
}

/// A run's end is pinned by its properties: if everything from `i` to `e`
/// is whitespace and `e` is not (or is the end), then `ws_end` is `e`.
pub proof fn lemma_ws_end_is(s: Seq<char>, i: int, e: int)
    requires
        0 <= i <= e <= s.len(),
        forall|j: int| i <= j < e ==> is_ws_char(#[trigger] s[j]),
        e < s.len() ==> !is_ws_char(s[e]),
    ensures
        ws_end(s, i) == e,
    decreases e - i,
{
    if i < e {
        lemma_ws_end_is(s, i + 1, e);
    }
}

/// As `lemma_ws_end_is`, for identifier runs.
pub proof fn lemma_ident_end_is(s: Seq<char>, i: int, e: int)
    requires
        0 <= i <= e <= s.len(),
        forall|j: int| i <= j < e ==> is_ident_char(#[trigger] s[j]),
        e < s.len() ==> !is_ident_char(s[e]),
    ensures
        ident_end(s, i) == e,
    decreases e - i,
{
    if i < e {
        lemma_ident_end_is(s, i + 1, e);
    }
}

/// As `lemma_ws_end_is`, for value-token runs.
pub proof fn lemma_value_end_is(s: Seq<char>, i: int, e: int)
    requires
        0 <= i <= e <= s.len(),
        forall|j: int| i <= j < e ==> is_value_char(#[trigger] s[j]),
        e < s.len() ==> !is_value_char(s[e]),
    ensures
        value_end(s, i) == e,
    decreases e - i,
{
    if i < e {
        lemma_value_end_is(s, i + 1, e);
    }
}

fn skip_ws(s: &str, n: usize, i: usize) -> (j: usize)
    requires
        n == s@.len(),
        i <= n,
    ensures
        j == ws_end(s@, i as int),
        i <= j <= n,
{
    let mut j = i;
    while j < n && ws_char(s.get_char(j))
        invariant
            n == s@.len(),
            i <= j <= n,
            ws_end(s@, i as int) == ws_end(s@, j as int),
        decreases n - j,
    {
        j += 1;
    }
    proof {
        lemma_ws_end(s@, j as int);
    }
    j
}

fn scan_ident(s: &str, n: usize, i: usize) -> (j: usize)
    requires
        n == s@.len(),
        i <= n,
    ensures
        j == ident_end(s@, i as int),
        i <= j <= n,
{
    let mut j = i;
    while j < n && ident_char(s.get_char(j))
        invariant
            n == s@.len(),
            i <= j <= n,
            ident_end(s@, i as int) == ident_end(s@, j as int),
        decreases n - j,
    {
        j += 1;
    }
    proof {
        lemma_ident_end(s@, j as int);
    }
    j
}

fn scan_value(s: &str, n: usize, i: usize) -> (j: usize)
    requires
        n == s@.len(),
        i <= n,
    ensures
        j == value_end(s@, i as int),
        i <= j <= n,
{
    let mut j = i;
    while j < n && value_char(s.get_char(j))
        invariant
            n == s@.len(),
            i <= j <= n,
            value_end(s@, i as int) == value_end(s@, j as int),
        decreases n - j,
    {
        j += 1;
    }
    proof {
        lemma_value_end(s@, j as int);
    }
    j
}

/// The largest whole-unit count a literal may carry; a literal whose
/// integer part exceeds this does not fit the fixed-point range and is
/// treated as malformed.
pub const MAX_WHOLE_UNITS: i64 = 9_000_000_000_000;

/// Every character is a decimal digit.
pub open spec fn all_digits(t: Seq<char>) -> bool {
    forall|i: int| 0 <= i < t.len() ==> is_digit_char(#[trigger] t[i])
}

/// The numeric value of a digit character.
pub open spec fn digit_val(c: char) -> int {
    c as u32 - 48
}

/// The value of a string of decimal digits, most significant first.
pub open spec fn digits_val(t: Seq<char>) -> int
    decreases t.len(),
{
    if t.len() == 0 {
        0
    } else {
        10 * digits_val(t.drop_last()) + digit_val(t.last())
    }
}

/// Ten to the `n`.
pub open spec fn pow10(n: nat) -> int
    decreases n,
{
    if n == 0 {
        1
    } else {
        10 * pow10((n - 1) as nat)
    }
}

/// The position of the first `.` in `t`, or `t.len()` if there is none.
pub open spec fn dot_pos(t: Seq<char>) -> int
    decreases t.len(),
{
    if t.len() == 0 {
        0
    } else if t[0] == '.' {
        0
    } else {
        1 + dot_pos(t.skip(1))
    }
}

/// The value in millionths of a fractional digit string: its first six
/// digits, padded with zeros on the right; digits past the sixth are cut.
pub open spec fn frac_val(t: Seq<char>) -> int {
    if t.len() >= 6 {
        digits_val(t.take(6))
    } else {
        digits_val(t) * pow10((6 - t.len()) as nat)
    }
}

/// An unsigned number literal: one or more digits, optionally followed
/// by a point and one or more digits.
pub open spec fn is_number_body(t: Seq<char>) -> bool {
    let p = dot_pos(t);
    if p == t.len() {
        t.len() > 0 && all_digits(t)
    } else {
        0 < p && p + 1 < t.len() && all_digits(t.take(p)) && all_digits(t.skip(p + 1))
    }
}

/// The value in millionths of an unsigned number literal.
pub open spec fn body_micros(t: Seq<char>) -> int {
    let p = dot_pos(t);
    let whole = digits_val(t.take(p));
    let fr = if p == t.len() {
        0
    } else {
        frac_val(t.skip(p + 1))
    };
    whole * 1_000_000 + fr
}

/// The value a value token stands for: a well-formed number literal whose
/// integer part fits gives its fixed-point value; anything else quietly
/// defaults to `0`. This is the lenient-literal policy: a malformed
/// literal never aborts a parse.
pub open spec fn token_micros(t: Seq<char>) -> int {
    let neg = t.len() > 0 && t[0] == '-';
    let body = if neg {
        t.skip(1)
    } else {
        t
    };
    if is_number_body(body) && digits_val(body.take(dot_pos(body))) <= MAX_WHOLE_UNITS as int {
        if neg {
            -body_micros(body)
        } else {
            body_micros(body)
        }
    } else {
        0
    }
}

/// A digit string's value is nonnegative and below ten to its length.
pub proof fn lemma_digits_val_bound(t: Seq<char>)
    requires
        all_digits(t),
    ensures
        0 <= digits_val(t) < pow10(t.len()),
    decreases t.len(),
{
    if t.len() > 0 {
        assert forall|i: int| 0 <= i < t.drop_last().len() implies is_digit_char(
            #[trigger] t.drop_last()[i],
        ) by {
            assert(t.drop_last()[i] == t[i]);
        }
        lemma_digits_val_bound(t.drop_last());
        assert(is_digit_char(t[t.len() - 1]));
    }
}

/// Appending a digit multiplies the value by ten and adds the digit.
pub proof fn lemma_digits_val_push(t: Seq<char>, c: char)
    ensures
        digits_val(t.push(c)) == 10 * digits_val(t) + digit_val(c),
{
    assert(t.push(c).drop_last() =~= t);
    assert(t.push(c).last() == c);
}

/// Where the first `.` sits: before it there is none, and it is a `.`.
pub proof fn lemma_dot_pos(t: Seq<char>)
    ensures
        0 <= dot_pos(t) <= t.len(),
        forall|j: int| 0 <= j < dot_pos(t) ==> t[j] != '.',
        dot_pos(t) < t.len() ==> t[dot_pos(t)] == '.',
    decreases t.len(),
{
    if t.len() > 0 && t[0] != '.' {
        lemma_dot_pos(t.skip(1));
        assert forall|j: int| 0 <= j < dot_pos(t) implies t[j] != '.' by {
            if j > 0 {
                assert(t.skip(1)[j - 1] == t[j]);
            }
        }
        if dot_pos(t) < t.len() {
            assert(t.skip(1)[dot_pos(t) - 1] == t[dot_pos(t)]);
        }
    }
}

/// Powers of ten are at least one.
pub proof fn lemma_pow10_pos(n: nat)
    ensures
        pow10(n) >= 1,
    decreases n,
{
    if n > 0 {
        lemma_pow10_pos((n - 1) as nat);
    }
}

/// Powers of ten grow with the exponent.
pub proof fn lemma_pow10_mono(a: nat, b: nat)
    requires
        a <= b,
    ensures
        pow10(a) <= pow10(b),
    decreases b - a,
{
    if a < b {
        lemma_pow10_mono(a, (b - 1) as nat);
        lemma_pow10_pos((b - 1) as nat);
    }
}

/// Powers of ten turn sums of exponents into products.
pub proof fn lemma_pow10_add(a: nat, b: nat)
    ensures
        pow10(a + b) == pow10(a) * pow10(b),
    decreases a,
{
    if a > 0 {
        lemma_pow10_add((a - 1) as nat, b);
        assert(10 * (pow10((a - 1) as nat) * pow10(b)) == (10 * pow10((a - 1) as nat)) * pow10(
            b,
        )) by (nonlinear_arith);
    }
}

/// The first `.` is pinned by its properties.
pub proof fn lemma_dot_pos_is(t: Seq<char>, p: int)
    requires
        0 <= p <= t.len(),
        forall|j: int| 0 <= j < p ==> t[j] != '.',
        p < t.len() ==> t[p] == '.',
    ensures
        dot_pos(t) == p,
    decreases p,
{
    if t.len() > 0 && p > 0 {
        assert forall|j: int| 0 <= j < p - 1 implies t.skip(1)[j] != '.' by {
            assert(t.skip(1)[j] == t[j + 1]);
        }
        if p - 1 < t.skip(1).len() {
            assert(t.skip(1)[p - 1] == t[p]);
        }
        lemma_dot_pos_is(t.skip(1), p - 1);
    }
}

fn pow10_u64(k: usize) -> (r: u64)
    requires
        k <= 6,
    ensures
        r as int == pow10(k as nat),
{
    proof {
        reveal_with_fuel(pow10, 8);
    }
    match k {
        0 => 1,
        1 => 10,
        2 => 100,
        3 => 1_000,
        4 => 10_000,
        5 => 100_000,
        _ => 1_000_000,
    }
}

/// The fixed-point value a value token stands for, under the lenient
/// policy `token_micros` describes.
#[verifier::rlimit(30)]
pub fn literal_micros(tok: &str) -> (r: i64)
    ensures
        r as int == token_micros(tok@),
{
    let ghost t = tok@;
    let n = tok.unicode_len();
    let mut i: usize = 0;
    let mut neg: bool = false;
    if n > 0 && tok.get_char(0) == '-' {
        neg = true;
        i = 1;
    }
    let ghost body = t.skip(i as int);
    let start = i;
    proof {
        if start == 0 {
            assert(body =~= t);
        }
    }
    let mut ip: u64 = 0;
    let mut big: bool = false;
    while i < n && digit_char(tok.get_char(i))
        invariant
            t == tok@,
            n == t.len(),
            start <= i <= n,
            start == 0 || start == 1,
            neg <==> (t.len() > 0 && t[0] == '-' && start == 1),
            !neg ==> start == 0,
            body == t.skip(start as int),
            forall|j: int| start <= j < i ==> is_digit_char(#[trigger] t[j]),
            !big ==> ip as int == digits_val(body.take(i - start)) && ip <= 9_000_000_000_000,
            big ==> digits_val(body.take(i - start)) > 9_000_000_000_000,
        decreases n - i,
    {
        let c = tok.get_char(i);
        let d: u64 = (c as u32 - 48) as u64;
        proof {
            assert(body.take(i + 1 - start) =~= body.take(i - start).push(t[i as int]));
            lemma_digits_val_push(body.take(i - start), t[i as int]);
            if big {
                assert forall|j: int| 0 <= j < body.take(i - start).len() implies is_digit_char(
                    #[trigger] body.take(i - start)[j],
                ) by {
                    assert(body.take(i - start)[j] == t[start + j]);
                }
                lemma_digits_val_bound(body.take(i - start));
            }
        }
        if !big {
            let next = ip * 10 + d;
            if next > 9_000_000_000_000 {
                big = true;
            } else {
                ip = next;
            }
        }
        i += 1;
    }
    proof {
        lemma_dot_pos(body);
    }
    if i == start {
        // no leading digit: not a number literal
        proof {
            if body.len() > 0 {
                assert(body[0] == t[start as int]);
                assert(!is_digit_char(body[0]));
                let q = dot_pos(body);
                if q == body.len() {
                    assert(!all_digits(body));
                } else if q > 0 {
                    assert(body.take(q)[0] == body[0]);
                    assert(!all_digits(body.take(q)));
                }
            }
        }
        return 0;
    }
    let ghost p = i - start;
    proof {
        assert forall|j: int| 0 <= j < p implies is_digit_char(#[trigger] body[j]) by {
            assert(body[j] == t[start + j]);
        }
        assert forall|j: int| 0 <= j < p implies body[j] != '.' by {
            assert(is_digit_char(body[j]));
        }
        assert forall|j: int| 0 <= j < p implies is_digit_char(
            #[trigger] body.take(p)[j],
        ) by {
            assert(body.take(p)[j] == body[j]);
        }
    }
    if i == n {
        // integer literal
        proof {
            lemma_dot_pos_is(body, p);
            assert(body.take(p) =~= body);
        }
        if big {
            return 0;
        }
        let v = ip * 1_000_000;
        let sv = v as i64;
        if neg {
            proof {
                assert(t.skip(1) == body);
            }
            return -sv;
        }
        proof {
            assert(body == t);
        }
        return sv;
    }
    let c = tok.get_char(i);
    if c != '.' {
        // a stray character inside the token: not a number literal
        proof {
            assert(body[p] == t[i as int]);
            assert(!is_digit_char(body[p]) && body[p] != '.');
            if dot_pos(body) == body.len() {
                assert(!is_digit_char(body[p]));
            } else {
                let q = dot_pos(body);
                assert(q != p);
                if q < p {
                    assert(is_digit_char(body[q]));
                } else {
                    assert(body.take(q)[p] == body[p]);
                }
            }
        }
        return 0;
    }
    proof {
        lemma_dot_pos_is(body, p);
    }
    i += 1;
    let fstart = i;
    let ghost frac = body.skip(p + 1);
    let mut fr: u64 = 0;
    let mut fcnt: usize = 0;
    while i < n && digit_char(tok.get_char(i))
        invariant
            t == tok@,
            n == t.len(),
            start + 1 <= fstart <= i <= n,
            start == 0 || start == 1,
            p == fstart - 1 - start,
            body == t.skip(start as int),
            frac == body.skip(p + 1),
            frac.len() >= i - fstart,
            fcnt == i - fstart,
            forall|j: int| fstart <= j < i ==> is_digit_char(#[trigger] t[j]),
            fcnt <= 6 ==> fr as int == digits_val(frac.take(fcnt as int)),
            fcnt > 6 ==> fr as int == digits_val(frac.take(6)),
            fr < 1_000_000,
        decreases n - i,
    {
        let c2 = tok.get_char(i);
        let d: u64 = (c2 as u32 - 48) as u64;
        proof {
            assert(frac[i - fstart] == t[i as int]);
            if fcnt < 6 {
                assert(frac.take(fcnt + 1) =~= frac.take(fcnt as int).push(frac[fcnt as int]));
                lemma_digits_val_push(frac.take(fcnt as int), frac[fcnt as int]);
            }
        }
        if fcnt < 6 {
            fr = fr * 10 + d;
            proof {
                assert forall|j: int| 0 <= j < fcnt + 1 implies is_digit_char(
                    #[trigger] frac.take(fcnt + 1)[j],
                ) by {
                    assert(frac.take(fcnt + 1)[j] == frac[j]);
                    assert(frac[j] == t[fstart + j]);
                }
                lemma_digits_val_bound(frac.take(fcnt + 1));
                lemma_pow10_mono((fcnt + 1) as nat, 6);
                assert(pow10(6) == 1_000_000) by {
                    reveal_with_fuel(pow10, 8);
                }
            }
        }
        fcnt += 1;
        i += 1;
    }
    if i == fstart {
        // a point with no digits after it: not a number literal
        proof {
            if p + 1 < body.len() {
                assert(body[p + 1] == t[fstart as int]);
                assert(!is_digit_char(body[p + 1]));
                assert(body.skip(p + 1)[0] == body[p + 1]);
                assert(!all_digits(body.skip(p + 1)));
            }
        }
        return 0;
    }
    if i < n {
        // a stray character after the fractional digits
        proof {
            let bad = i - start;
            assert(body[bad] == t[i as int]);
            assert(!is_digit_char(body[bad]));
            assert(bad - (p + 1) == i - fstart);
            assert(body.skip(p + 1)[bad - (p + 1)] == body[bad]);
            assert(!all_digits(body.skip(p + 1)));
        }
        return 0;
    }
    proof {
        assert(frac =~= frac.take(fcnt as int));
        assert forall|j: int| 0 <= j < frac.len() implies is_digit_char(#[trigger] frac[j]) by {
            assert(frac[j] == t[fstart + j]);
        }
    }
    if big {
        return 0;
    }
    let scale: u64 = if fcnt >= 6 {
        1
    } else {
        pow10_u64(6 - fcnt)
    };
    proof {
        assert(pow10(6) == 1_000_000) by {
            reveal_with_fuel(pow10, 8);
        }
        if fcnt >= 6 {
            assert(scale == 1);
            assert(fr * scale == fr) by (nonlinear_arith)
                requires
                    scale == 1,
            ;
        } else {
            lemma_digits_val_bound(frac);
            lemma_pow10_pos((6 - fcnt) as nat);
            lemma_pow10_mono((6 - fcnt) as nat, 6);
            assert(digits_val(frac) * pow10((6 - fcnt) as nat) < pow10(fcnt as nat) * pow10(
                (6 - fcnt) as nat,
            )) by (nonlinear_arith)
                requires
                    digits_val(frac) < pow10(fcnt as nat),
                    pow10((6 - fcnt) as nat) > 0,
            ;
            lemma_pow10_add(fcnt as nat, (6 - fcnt) as nat);
            assert(fr * scale < 1_000_000) by (nonlinear_arith)
                requires
                    fr as int == digits_val(frac),
                    scale as int == pow10((6 - fcnt) as nat),
                    digits_val(frac) * pow10((6 - fcnt) as nat) < 1_000_000,
                    digits_val(frac) >= 0,
            ;
        }
    }
    let frv = fr * scale;
    proof {
        assert(ip <= 9_000_000_000_000);
        assert(frv < 1_000_000);
    }
    let v = ip * 1_000_000 + frv;
    let sv = v as i64;
    if neg {
        proof {
            assert(t.skip(1) == body);
        }
        -sv
    } else {
        proof {
            assert(body == t);
        }
        sv
    }
}

/// Parameter assignments from position `i` up to the closing `}`:
/// `name = value` pairs separated by whitespace. Yields the accumulated
/// parameter map and the position just past the `}`, or nothing where
/// the text does not fit the grammar.
pub open spec fn parse_params(s: Seq<char>, i: int, acc: Map<Seq<char>, int>) -> Option<
    (Map<Seq<char>, int>, int),
>
    decreases s.len() - i,
{
    if !(0 <= i < s.len()) {
        None
    } else if s[i] == '}' {
        Some((acc, i + 1))
    } else if is_ident_start_char(s[i]) {
        let j = ident_end(s, i);
        let k = ws_end(s, j);
        if k < s.len() && s[k] == '=' {
            let v = ws_end(s, k + 1);
            let e = value_end(s, v);
            if v < e {
                let w = ws_end(s, e);
                if i < w && w <= s.len() {
                    parse_params(
                        s,
                        w,
                        acc.insert(s.subrange(i, j), token_micros(s.subrange(v, e))),
                    )
                } else {
                    None
                }
            } else {
                None
            }
        } else {
            None
        }
    } else {
        None
    }
}

/// Field blocks from position `i` to the end of the text: `name { ... }`
/// groups separated by whitespace. Yields the accumulated model, or
/// nothing where the text does not fit the grammar.
pub open spec fn parse_fields(
    s: Seq<char>,
    i: int,
    acc: Map<Seq<char>, Map<Seq<char>, int>>,
) -> Option<Map<Seq<char>, Map<Seq<char>, int>>>
    decreases s.len() - i,
{
    if !(0 <= i < s.len()) {
        if i == s.len() {
            Some(acc)
        } else {
            None
        }
    } else if is_ident_start_char(s[i]) {
        let j = ident_end(s, i);
        let k = ws_end(s, j);
        if k < s.len() && s[k] == '{' {
            match parse_params(s, ws_end(s, k + 1), Map::empty()) {
                Option::None => None,
                Option::Some((ps, e)) => {
                    let w = ws_end(s, e);
                    if i < w && w <= s.len() {
                        parse_fields(s, w, acc.insert(s.subrange(i, j), ps))
                    } else {
                        None
                    }
                },
            }
        } else {
            None
        }
    } else {
        None
    }
}

/// A whole Weave file: leading whitespace, then field blocks to the end.
pub open spec fn parse_file(s: Seq<char>) -> Option<Map<Seq<char>, Map<Seq<char>, int>>> {
    parse_fields(s, ws_end(s, 0), Map::empty())
}

/// What the parser was looking for when the text ran off the grammar.
#[derive(Clone, Copy, Debug, PartialEq, Eq, Structural)]
pub enum SyntaxErrorKind {
    /// A field name had to follow.
    ExpectedFieldName,
    /// A `{` had to follow a field name.
    ExpectedOpenBrace,
    /// A parameter name or a `}` had to follow inside a block.
    ExpectedParamOrClose,
    /// An `=` had to follow a parameter name.
    ExpectedEquals,
    /// A value had to follow an `=`.
    ExpectedValue,
    /// The text ended inside a field block.
    UnexpectedEnd,
}

/// Source text that does not fit the grammar: what was missing, and
/// where (a character offset into the source).
#[derive(Clone, Copy, Debug, PartialEq, Eq, Structural)]
pub struct SyntaxError {
    /// Character offset at which the parse failed.
    pub pos: usize,
    /// What had to stand there.
    pub kind: SyntaxErrorKind,
}

/// The wording of each kind of syntax error.
pub open spec fn kind_message(kind: SyntaxErrorKind) -> Seq<char> {
    match kind {
        SyntaxErrorKind::ExpectedFieldName => "expected a field name"@,
        SyntaxErrorKind::ExpectedOpenBrace => "expected '{' after the field name"@,
        SyntaxErrorKind::ExpectedParamOrClose => "expected a parameter name or '}'"@,
        SyntaxErrorKind::ExpectedEquals => "expected '=' after the parameter name"@,
        SyntaxErrorKind::ExpectedValue => "expected a value after '='"@,
        SyntaxErrorKind::UnexpectedEnd => "the text ended inside a field block"@,
    }
}

impl SyntaxError {
    /// A human-readable description of the error.
    pub fn describe(&self) -> (r: String)
        ensures
            r@ == kind_message(self.kind),
    {
        match self.kind {
            SyntaxErrorKind::ExpectedFieldName => "expected a field name".to_owned(),
            SyntaxErrorKind::ExpectedOpenBrace => "expected '{' after the field name".to_owned(),
            SyntaxErrorKind::ExpectedParamOrClose => "expected a parameter name or '}'".to_owned(),
            SyntaxErrorKind::ExpectedEquals => "expected '=' after the parameter name".to_owned(),
            SyntaxErrorKind::ExpectedValue => "expected a value after '='".to_owned(),
            SyntaxErrorKind::UnexpectedEnd => "the text ended inside a field block".to_owned(),
        }
    }
}

fn parse_params_exec(s: &str, n: usize, start: usize) -> (r: Result<(ParamSet, usize), SyntaxError>)
    requires
        n == s@.len(),
        start <= n,
    ensures
        match r {
            Ok((ps, e)) => ps.wf() && parse_params(s@, start as int, Map::empty()) == Some(
                (ps@, e as int),
            ) && start < e <= n,
            Err(err) => parse_params(s@, start as int, Map::empty()) is None && err.pos <= n,
        },
{
    let mut ps = ParamSet::new();
    let mut i = start;
    while i < n && s.get_char(i) != '}'
        invariant
            n == s@.len(),
            start <= i <= n,
            ps.wf(),
            parse_params(s@, start as int, Map::empty()) == parse_params(s@, i as int, ps@),
        decreases n - i,
    {
        if !ident_start_char(s.get_char(i)) {
            return Err(SyntaxError { pos: i, kind: SyntaxErrorKind::ExpectedParamOrClose });
        }
        let j = scan_ident(s, n, i);
        let k = skip_ws(s, n, j);
        if k == n || s.get_char(k) != '=' {
            return Err(SyntaxError { pos: k, kind: SyntaxErrorKind::ExpectedEquals });
        }
        let v = skip_ws(s, n, k + 1);
        let e = scan_value(s, n, v);
        if e == v {
            return Err(SyntaxError { pos: v, kind: SyntaxErrorKind::ExpectedValue });
        }
        let tok = s.substring_char(v, e);
        let value = literal_micros(tok);
        let pname = s.substring_char(i, j);
        ps.set(pname, value);
        let w = skip_ws(s, n, e);
        proof {
            assert(ident_end(s@, i as int) == ident_end(s@, i + 1));
        }
        i = w;
    }
    if i < n {
        Ok((ps, i + 1))
    } else {
        Err(SyntaxError { pos: n, kind: SyntaxErrorKind::UnexpectedEnd })
    }
}

/// Parse Weave source text into a field model.
///
/// The parse succeeds exactly where the text fits the grammar
/// (`parse_file`); a structural error is fatal and yields a syntax error
/// with a best-effort position, while a malformed numeric literal merely
/// becomes `0`.
pub fn parse_weave(source: &str) -> (r: Result<FieldModel, SyntaxError>)
    ensures
        match r {
            Ok(m) => m.wf() && parse_file(source@) == Some(m@),
            Err(err) => parse_file(source@) is None && err.pos <= source@.len(),
        },
{
    let n = source.unicode_len();
    let mut fields = FieldModel::new();
    let mut i = skip_ws(source, n, 0);
    while i < n
        invariant
            n == source@.len(),
            i <= n,
            fields.wf(),
            parse_file(source@) == parse_fields(source@, i as int, fields@),
        decreases n - i,
    {
        if !ident_start_char(source.get_char(i)) {
            return Err(SyntaxError { pos: i, kind: SyntaxErrorKind::ExpectedFieldName });
        }
        let j = scan_ident(source, n, i);
        let k = skip_ws(source, n, j);
        if k == n || source.get_char(k) != '{' {
            return Err(SyntaxError { pos: k, kind: SyntaxErrorKind::ExpectedOpenBrace });
        }
        let q = skip_ws(source, n, k + 1);
        match parse_params_exec(source, n, q) {
            Err(err) => {
                return Err(err);
            },
            Ok((ps, e)) => {
                let name = source.substring_char(i, j);
                let w = skip_ws(source, n, e);
                fields.insert_field(name, ps);
                proof {
                    assert(ident_end(source@, i as int) == ident_end(source@, i + 1));
                }
                i = w;
            },
        }
    }
    Ok(fields)
}

/// The Weave grammar's parser.
pub struct WeaveLangParser;

impl WeaveLangParser {
    /// Parse Weave source text into a field model; see `parse_weave`.
    pub fn parse(source: &str) -> (r: Result<FieldModel, SyntaxError>)
        ensures
            match r {
                Ok(m) => m.wf() && parse_file(source@) == Some(m@),
                Err(err) => parse_file(source@) is None && err.pos <= source@.len(),
            },
    {
        parse_weave(source)
    }
}

} // verus!
