//! Writing a field model back out as Weave source, and the proof that
//! parsing the written text recovers the model exactly.
use vstd::prelude::*;

use crate::model::FieldModel;
use crate::parser;
use crate::parser::all_digits;
use crate::parser::digit_val;
use crate::parser::digits_val;
use crate::parser::dot_pos;
use crate::parser::is_digit_char;
use crate::parser::is_ident_char;
use crate::parser::is_ident_start_char;
use crate::parser::is_number_body;
use crate::parser::is_value_char;
use crate::parser::is_ws_char;
use crate::parser::pow10;
use crate::parser::token_micros;

verus! {

/// The largest magnitude `weave_source` can write: whole part at the
/// literal cap, fractional part all nines.
pub const MAX_SOURCE_VALUE: i64 = 9_000_000_000_000_999_999;

/// A well-formed identifier: nonempty, opening with a letter or
/// underscore, continuing with letters, digits and underscores.
pub open spec fn is_ident_seq(t: Seq<char>) -> bool {
    &&& t.len() > 0
    &&& is_ident_start_char(t[0])
    &&& forall|j: int| 0 <= j < t.len() ==> is_ident_char(#[trigger] t[j])
}

/// The character for one decimal digit.
pub open spec fn digit_char_of(d: int) -> char {
    if d == 0 {
        '0'
    } else if d == 1 {
        '1'
    } else if d == 2 {
        '2'
    } else if d == 3 {
        '3'
    } else if d == 4 {
        '4'
    } else if d == 5 {
        '5'
    } else if d == 6 {
        '6'
    } else if d == 7 {
        '7'
    } else if d == 8 {
        '8'
    } else {
        '9'
    }
}

/// `digit_char_of` writes the digit it was given.
pub proof fn lemma_digit_char_of(d: int)
    requires
        0 <= d <= 9,
    ensures
        is_digit_char(digit_char_of(d)),
        digit_val(digit_char_of(d)) == d,
{
}

/// The decimal digits of a nonnegative number, most significant first.
pub open spec fn dec_digits(n: int) -> Seq<char>
    decreases n,
{
    if n < 10 {
        seq![digit_char_of(n)]
    } else {
        dec_digits(n / 10).push(digit_char_of(n % 10))
    }
}

/// `dec_digits` writes digits whose value is the number itself.
pub proof fn lemma_dec_digits(n: int)
    requires
        n >= 0,
    ensures
        dec_digits(n).len() >= 1,
        all_digits(dec_digits(n)),
        digits_val(dec_digits(n)) == n,
    decreases n,
{
    if n < 10 {
        lemma_digit_char_of(n);
        assert(dec_digits(n) =~= Seq::<char>::empty().push(digit_char_of(n)));
        parser::lemma_digits_val_push(Seq::<char>::empty(), digit_char_of(n));
    } else {
        lemma_dec_digits(n / 10);
        lemma_digit_char_of(n % 10);
        parser::lemma_digits_val_push(dec_digits(n / 10), digit_char_of(n % 10));
        assert forall|j: int| 0 <= j < dec_digits(n).len() implies is_digit_char(
            #[trigger] dec_digits(n)[j],
        ) by {
            if j < dec_digits(n).len() - 1 {
                assert(dec_digits(n)[j] == dec_digits(n / 10)[j]);
            }
        }
    }
}

/// Exactly `k` decimal digits of a number below ten to the `k`, most
/// significant first, padded with zeros on the left.
pub open spec fn fixed_digits(n: int, k: nat) -> Seq<char>
    decreases k,
{
    if k == 0 {
        Seq::empty()
    } else {
        fixed_digits(n / 10, (k - 1) as nat).push(digit_char_of(n % 10))
    }
}

/// `fixed_digits` writes `k` digits whose value is the number itself.
pub proof fn lemma_fixed_digits(n: int, k: nat)
    requires
        0 <= n < pow10(k),
    ensures
        fixed_digits(n, k).len() == k,
        all_digits(fixed_digits(n, k)),
        digits_val(fixed_digits(n, k)) == n,
    decreases k,
{
    if k == 0 {
    } else {
        assert(pow10(k) == 10 * pow10((k - 1) as nat));
        lemma_fixed_digits(n / 10, (k - 1) as nat);
        lemma_digit_char_of(n % 10);
        parser::lemma_digits_val_push(fixed_digits(n / 10, (k - 1) as nat), digit_char_of(n % 10));
        assert forall|j: int| 0 <= j < fixed_digits(n, k).len() implies is_digit_char(
            #[trigger] fixed_digits(n, k)[j],
        ) by {
            if j < fixed_digits(n, k).len() - 1 {
                assert(fixed_digits(n, k)[j] == fixed_digits(n / 10, (k - 1) as nat)[j]);
            }
        }
    }
}

/// The canonical literal of a nonnegative fixed-point magnitude: the
/// whole units, a point, six fractional digits.
pub open spec fn lit_mag(m: int) -> Seq<char> {
    dec_digits(m / 1_000_000) + seq!['.'] + fixed_digits(m % 1_000_000, 6)
}

/// The canonical literal of a fixed-point value.
pub open spec fn lit_chars(v: int) -> Seq<char> {
    if v < 0 {
        seq!['-'] + lit_mag(-v)
    } else {
        lit_mag(v)
    }
}

/// The canonical literal of `v` is one value token, opens with a sign or
/// digit, and parses back to exactly `v`.
pub proof fn lemma_lit_roundtrip(v: int)
    requires
        -MAX_SOURCE_VALUE <= v <= MAX_SOURCE_VALUE,
    ensures
        lit_chars(v).len() >= 1,
        forall|j: int| 0 <= j < lit_chars(v).len() ==> is_value_char(#[trigger] lit_chars(v)[j]),
        !is_ident_start_char(lit_chars(v)[0]) || is_digit_char(lit_chars(v)[0]),
        token_micros(lit_chars(v)) == v,
{
    let m = if v < 0 {
        -v
    } else {
        v
    };
    let whole = m / 1_000_000;
    let fr = m % 1_000_000;
    assert(pow10(6) == 1_000_000) by {
        reveal_with_fuel(pow10, 8);
    }
    lemma_dec_digits(whole);
    lemma_fixed_digits(fr, 6);
    let a = dec_digits(whole);
    let b = fixed_digits(fr, 6);
    let body = lit_mag(m);
    assert(body.len() == a.len() + 7);
    // where the point sits
    assert forall|j: int| 0 <= j < a.len() implies body[j] == a[j] by {}
    assert(body[a.len() as int] == '.');
    assert forall|j: int| 0 <= j < 6 implies body[a.len() as int + 1 + j] == b[j] by {}
    assert forall|j: int| 0 <= j < a.len() implies body[j] != '.' by {
        assert(is_digit_char(a[j]));
    }
    parser::lemma_dot_pos_is(body, a.len() as int);
    assert(body.take(a.len() as int) =~= a);
    assert(body.skip(a.len() as int + 1) =~= b);
    assert(is_number_body(body));
    assert(digits_val(body.take(dot_pos(body))) == whole);
    assert(whole <= 9_000_000_000_000);
    assert(b.take(6) =~= b);
    assert(parser::frac_val(b) == fr);
    assert(parser::body_micros(body) == whole * 1_000_000 + fr);
    assert(whole * 1_000_000 + fr == m);
    // every literal character is a value character
    assert forall|j: int| 0 <= j < body.len() implies is_value_char(#[trigger] body[j]) by {
        if j < a.len() {
            assert(is_digit_char(a[j]));
        } else if j > a.len() {
            assert(body[j] == b[j - a.len() - 1]);
            assert(is_digit_char(b[j - a.len() - 1]));
        }
    }
    if v < 0 {
        let t = lit_chars(v);
        assert(t[0] == '-');
        assert(t.skip(1) =~= body);
        assert forall|j: int| 0 <= j < t.len() implies is_value_char(#[trigger] t[j]) by {
            if j > 0 {
                assert(t[j] == body[j - 1]);
            }
        }
        assert(token_micros(t) == -parser::body_micros(body));
    } else {
        assert(lit_chars(v) == body);
        assert(body[0] == a[0]);
        assert(is_digit_char(body[0]));
        assert(body[0] != '-') by {
            assert(is_digit_char(body[0]));
        }
        assert(token_micros(body) == parser::body_micros(body));
    }
}

/// One serialized parameter assignment: `name = literal `, with a
/// trailing space as separator.
pub open spec fn ser_param(p: (Seq<char>, int)) -> Seq<char> {
    p.0 + " = "@ + lit_chars(p.1) + " "@
}

/// Serialized parameter assignments, in order.
pub open spec fn ser_params(ps: Seq<(Seq<char>, int)>) -> Seq<char>
    decreases ps.len(),
{
    if ps.len() == 0 {
        Seq::empty()
    } else {
        ser_params(ps.drop_last()) + ser_param(ps.last())
    }
}

/// One serialized field block: `name { assignments } `.
pub open spec fn ser_field(f: (Seq<char>, Seq<(Seq<char>, int)>)) -> Seq<char> {
    f.0 + " { "@ + ser_params(f.1) + "} "@
}

/// Serialized field blocks, in order.
pub open spec fn ser_fields(fs: Seq<(Seq<char>, Seq<(Seq<char>, int)>)>) -> Seq<char>
    decreases fs.len(),
{
    if fs.len() == 0 {
        Seq::empty()
    } else {
        ser_fields(fs.drop_last()) + ser_field(fs.last())
    }
}

/// Every pair holds a well-formed identifier and a writable value.
pub open spec fn wf_params_src(ps: Seq<(Seq<char>, int)>) -> bool {
    forall|i: int|
        0 <= i < ps.len() ==> is_ident_seq((#[trigger] ps[i]).0) && -(MAX_SOURCE_VALUE as int)
            <= ps[i].1 <= MAX_SOURCE_VALUE as int
}

/// Every field holds a well-formed identifier and writable parameters.
pub open spec fn wf_fields_src(fs: Seq<(Seq<char>, Seq<(Seq<char>, int)>)>) -> bool {
    forall|i: int|
        0 <= i < fs.len() ==> is_ident_seq((#[trigger] fs[i]).0) && wf_params_src(fs[i].1)
}

/// Serialization peels off the front assignment.
pub proof fn lemma_ser_params_front(ps: Seq<(Seq<char>, int)>)
    requires
        ps.len() > 0,
    ensures
        ser_params(ps) == ser_param(ps[0]) + ser_params(ps.skip(1)),
    decreases ps.len(),
{
    if ps.len() == 1 {
        assert(ps.drop_last() =~= Seq::<(Seq<char>, int)>::empty());
        assert(ps.skip(1) =~= Seq::<(Seq<char>, int)>::empty());
        assert(ps.last() == ps[0]);
        assert(ser_params(ps) =~= ser_param(ps[0]) + ser_params(ps.skip(1)));
    } else {
        let dl = ps.drop_last();
        lemma_ser_params_front(dl);
        assert(ps.skip(1).drop_last() =~= dl.skip(1));
        assert(ps.skip(1).last() == ps.last());
        assert(dl[0] == ps[0]);
        assert(ser_params(ps) =~= ser_param(ps[0]) + ser_params(ps.skip(1)));
    }
}

/// Serialization peels off the front field.
pub proof fn lemma_ser_fields_front(fs: Seq<(Seq<char>, Seq<(Seq<char>, int)>)>)
    requires
        fs.len() > 0,
    ensures
        ser_fields(fs) == ser_field(fs[0]) + ser_fields(fs.skip(1)),
    decreases fs.len(),
{
    if fs.len() == 1 {
        assert(fs.drop_last() =~= Seq::<(Seq<char>, Seq<(Seq<char>, int)>)>::empty());
        assert(fs.skip(1) =~= Seq::<(Seq<char>, Seq<(Seq<char>, int)>)>::empty());
        assert(fs.last() == fs[0]);
        assert(ser_fields(fs) =~= ser_field(fs[0]) + ser_fields(fs.skip(1)));
    } else {
        let dl = fs.drop_last();
        lemma_ser_fields_front(dl);
        assert(fs.skip(1).drop_last() =~= dl.skip(1));
        assert(fs.skip(1).last() == fs.last());
        assert(dl[0] == fs[0]);
        assert(ser_fields(fs) =~= ser_field(fs[0]) + ser_fields(fs.skip(1)));
    }
}

/// Folding peels off the front pair.
pub proof fn lemma_pairs_map_front(acc: Map<Seq<char>, int>, ps: Seq<(Seq<char>, int)>)
    requires
        ps.len() > 0,
    ensures
        crate::model::pairs_map(acc, ps) == crate::model::pairs_map(
            acc.insert(ps[0].0, ps[0].1),
            ps.skip(1),
        ),
    decreases ps.len(),
{
    let acc2 = acc.insert(ps[0].0, ps[0].1);
    if ps.len() == 1 {
        assert(ps.drop_last() =~= Seq::<(Seq<char>, int)>::empty());
        assert(ps.skip(1) =~= Seq::<(Seq<char>, int)>::empty());
        assert(ps.last() == ps[0]);
        assert(crate::model::pairs_map(acc, ps.drop_last()) == acc);
        assert(crate::model::pairs_map(acc2, ps.skip(1)) == acc2);
    } else {
        let dl = ps.drop_last();
        let s1 = ps.skip(1);
        lemma_pairs_map_front(acc, dl);
        assert(s1.drop_last() =~= dl.skip(1));
        assert(s1.last() == ps.last());
        assert(dl[0] == ps[0]);
        assert(crate::model::pairs_map(acc2, s1) == crate::model::pairs_map(
            acc2,
            s1.drop_last(),
        ).insert(s1.last().0, s1.last().1));
    }
}

/// Folding peels off the front field.
pub proof fn lemma_fields_map_front(
    acc: Map<Seq<char>, Map<Seq<char>, int>>,
    fs: Seq<(Seq<char>, Seq<(Seq<char>, int)>)>,
)
    requires
        fs.len() > 0,
    ensures
        crate::model::fields_pairs_map(acc, fs) == crate::model::fields_pairs_map(
            acc.insert(fs[0].0, crate::model::pairs_map(Map::empty(), fs[0].1)),
            fs.skip(1),
        ),
    decreases fs.len(),
{
    let acc2 = acc.insert(fs[0].0, crate::model::pairs_map(Map::empty(), fs[0].1));
    if fs.len() == 1 {
        assert(fs.drop_last() =~= Seq::<(Seq<char>, Seq<(Seq<char>, int)>)>::empty());
        assert(fs.skip(1) =~= Seq::<(Seq<char>, Seq<(Seq<char>, int)>)>::empty());
        assert(fs.last() == fs[0]);
        assert(crate::model::fields_pairs_map(acc, fs.drop_last()) == acc);
        assert(crate::model::fields_pairs_map(acc2, fs.skip(1)) == acc2);
    } else {
        let dl = fs.drop_last();
        let s1 = fs.skip(1);
        lemma_fields_map_front(acc, dl);
        assert(s1.drop_last() =~= dl.skip(1));
        assert(s1.last() == fs.last());
        assert(dl[0] == fs[0]);
        assert(crate::model::fields_pairs_map(acc2, s1) == crate::model::fields_pairs_map(
            acc2,
            s1.drop_last(),
        ).insert(s1.last().0, crate::model::pairs_map(Map::empty(), s1.last().1)));
    }
}

/// A text region pins the characters under it.
pub proof fn lemma_region(s: Seq<char>, i: int, t: Seq<char>)
    requires
        0 <= i,
        i + t.len() <= s.len(),
        s.subrange(i, i + t.len()) == t,
    ensures
        forall|k: int| 0 <= k < t.len() ==> s[i + k] == #[trigger] t[k],
{
    assert forall|k: int| 0 <= k < t.len() implies s[i + k] == t[k] by {
        assert(s.subrange(i, i + t.len())[k] == s[i + k]);
    }
}

/// Parsing serialized assignments followed by a `}` succeeds, folds every
/// pair onto the accumulator in order, and stops just past the `}`.
#[verifier::rlimit(100)]
#[verifier::spinoff_prover]
pub proof fn lemma_params_roundtrip(
    s: Seq<char>,
    i: int,
    ps: Seq<(Seq<char>, int)>,
    acc: Map<Seq<char>, int>,
)
    requires
        wf_params_src(ps),
        0 <= i,
        i + ser_params(ps).len() + 1 <= s.len(),
        s.subrange(i, i + ser_params(ps).len() + 1) == ser_params(ps) + seq!['}'],
    ensures
        parser::parse_params(s, i, acc) == Some(
            (crate::model::pairs_map(acc, ps), i + ser_params(ps).len() + 1),
        ),
    decreases ps.len(),
{
    reveal_strlit(" = ");
    reveal_strlit(" ");
    let reg = ser_params(ps) + seq!['}'];
    lemma_region(s, i, reg);
    if ps.len() == 0 {
        assert(reg[0] == '}');
        assert(s[i] == '}');
    } else {
        lemma_ser_params_front(ps);
        lemma_pairs_map_front(acc, ps);
        let p0 = ps[0];
        let name = p0.0;
        let nl = name.len() as int;
        lemma_lit_roundtrip(p0.1);
        let lit = lit_chars(p0.1);
        let sp0 = ser_param(p0);
        let rest = ps.skip(1);
        assert(wf_params_src(rest)) by {
            assert forall|q: int|
                0 <= q < rest.len() implies is_ident_seq((#[trigger] rest[q]).0) && -(
                MAX_SOURCE_VALUE as int) <= rest[q].1 <= MAX_SOURCE_VALUE as int by {
                assert(rest[q] == ps[q + 1]);
            }
        }
        assert(sp0.len() == nl + 4 + lit.len());
        assert(reg =~= sp0 + (ser_params(rest) + seq!['}']));
        let tail = ser_params(rest) + seq!['}'];
        // the characters of the first assignment, relative to i
        assert forall|j: int| 0 <= j < sp0.len() implies s[i + j] == sp0[j] by {
            assert(reg[j] == sp0[j]);
        }
        assert forall|j: int| 0 <= j < nl implies sp0[j] == name[j] by {}
        assert(sp0[nl] == ' ');
        assert(sp0[nl + 1] == '=');
        assert(sp0[nl + 2] == ' ');
        assert forall|j: int| 0 <= j < lit.len() implies sp0[nl + 3 + j] == lit[j] by {}
        assert(sp0[nl + 3 + lit.len()] == ' ');
        // scanner runs
        assert(is_ident_start_char(s[i]));
        assert(s[i] != '}') by {
            assert(!is_ident_start_char('}'));
        }
        assert forall|j: int| i <= j < i + nl implies is_ident_char(#[trigger] s[j]) by {
            assert(s[j] == name[j - i]);
        }
        assert(!is_ident_char(' '));
        assert(s[i + nl] == ' ');
        parser::lemma_ident_end_is(s, i, i + nl);
        assert(is_ws_char(' ') && !is_ws_char('='));
        assert(s[i + nl + 1] == '=');
        parser::lemma_ws_end_is(s, i + nl, i + nl + 1);
        assert(s[i + nl + 2] == ' ');
        let v = i + nl + 3;
        assert(s[v] == lit[0]);
        assert(!is_ws_char(lit[0])) by {
            assert(is_value_char(lit[0]));
        }
        parser::lemma_ws_end_is(s, i + nl + 2, v);
        let e = v + lit.len();
        assert forall|j: int| v <= j < e implies is_value_char(#[trigger] s[j]) by {
            assert(s[j] == lit[j - v]);
        }
        assert(s[e] == ' ');
        assert(!is_value_char(' '));
        parser::lemma_value_end_is(s, v, e);
        assert(s.subrange(v, e) =~= lit);
        assert(s.subrange(i, i + nl) =~= name);
        // past the separating space sits the next assignment or the `}`
        let w = e + 1;
        assert(w == i + sp0.len());
        assert(s[w] == tail[0]) by {
            assert(reg[sp0.len() as int] == tail[0]);
        }
        if rest.len() == 0 {
            assert(tail[0] == '}');
            assert(!is_ws_char('}'));
        } else {
            lemma_ser_params_front(rest);
            assert(tail[0] == ser_param(rest[0])[0]);
            assert(ser_param(rest[0])[0] == rest[0].0[0]) by {
                assert(is_ident_seq(rest[0].0));
            }
            assert(is_ident_start_char(rest[0].0[0]));
            assert(!is_ws_char(tail[0]));
        }
        parser::lemma_ws_end_is(s, e, w);
        // the rest of the region is the serialization of the rest
        assert(s.subrange(w, w + ser_params(rest).len() + 1) =~= tail) by {
            assert forall|k: int| 0 <= k < tail.len() implies s[w + k] == tail[k] by {
                assert(reg[sp0.len() + k] == tail[k]);
            }
        }
        lemma_params_roundtrip(s, w, rest, acc.insert(name, p0.1));
        assert(w + ser_params(rest).len() + 1 == i + ser_params(ps).len() + 1);
    }
}

/// Parsing serialized field blocks that run to the end of the text
/// succeeds and folds every field onto the accumulator in order.
#[verifier::rlimit(100)]
pub proof fn lemma_fields_roundtrip(
    s: Seq<char>,
    i: int,
    fs: Seq<(Seq<char>, Seq<(Seq<char>, int)>)>,
    acc: Map<Seq<char>, Map<Seq<char>, int>>,
)
    requires
        wf_fields_src(fs),
        0 <= i <= s.len(),
        s.skip(i) == ser_fields(fs),
    ensures
        parser::parse_fields(s, i, acc) == Some(crate::model::fields_pairs_map(acc, fs)),
    decreases fs.len(),
{
    reveal_strlit(" { ");
    reveal_strlit("} ");
    let reg = ser_fields(fs);
    assert(s.len() - i == reg.len());
    assert forall|k: int| 0 <= k < reg.len() implies s[i + k] == #[trigger] reg[k] by {
        assert(s.skip(i)[k] == s[i + k]);
    }
    if fs.len() == 0 {
        assert(i == s.len());
    } else {
        lemma_ser_fields_front(fs);
        lemma_fields_map_front(acc, fs);
        let f0 = fs[0];
        let name = f0.0;
        let nl = name.len() as int;
        let sf0 = ser_field(f0);
        let rest = fs.skip(1);
        let sp = ser_params(f0.1);
        assert(wf_fields_src(rest)) by {
            assert forall|q: int|
                0 <= q < rest.len() implies is_ident_seq((#[trigger] rest[q]).0) && wf_params_src(
                rest[q].1,
            ) by {
                assert(rest[q] == fs[q + 1]);
            }
        }
        assert(wf_params_src(f0.1));
        assert(sf0.len() == nl + 5 + sp.len());
        assert(reg =~= sf0 + ser_fields(rest));
        assert forall|j: int| 0 <= j < sf0.len() implies s[i + j] == sf0[j] by {
            assert(reg[j] == sf0[j]);
        }
        assert forall|j: int| 0 <= j < nl implies sf0[j] == name[j] by {}
        assert(sf0[nl] == ' ');
        assert(sf0[nl + 1] == '{');
        assert(sf0[nl + 2] == ' ');
        assert forall|j: int| 0 <= j < sp.len() implies sf0[nl + 3 + j] == sp[j] by {}
        assert(sf0[nl + 3 + sp.len()] == '}');
        assert(sf0[nl + 4 + sp.len()] == ' ');
        // scanner runs
        assert(is_ident_start_char(s[i]));
        assert forall|j: int| i <= j < i + nl implies is_ident_char(#[trigger] s[j]) by {
            assert(s[j] == name[j - i]);
        }
        assert(!is_ident_char(' '));
        assert(s[i + nl] == ' ');
        parser::lemma_ident_end_is(s, i, i + nl);
        assert(is_ws_char(' ') && !is_ws_char('{'));
        assert(s[i + nl + 1] == '{');
        parser::lemma_ws_end_is(s, i + nl, i + nl + 1);
        let q = i + nl + 3;
        assert(s[i + nl + 2] == ' ');
        assert(s[q] == sf0[nl + 3]);
        if f0.1.len() == 0 {
            assert(sp.len() == 0);
            assert(sf0[nl + 3] == '}');
            assert(!is_ws_char('}'));
        } else {
            lemma_ser_params_front(f0.1);
            assert(sp[0] == ser_param(f0.1[0])[0]);
            assert(ser_param(f0.1[0])[0] == f0.1[0].0[0]) by {
                assert(is_ident_seq(f0.1[0].0));
            }
            assert(is_ident_start_char(f0.1[0].0[0]));
            assert(!is_ws_char(sp[0]));
        }
        parser::lemma_ws_end_is(s, i + nl + 2, q);
        // the parameter region
        assert(s.subrange(q, q + sp.len() + 1) =~= sp + seq!['}']) by {
            assert forall|k: int| 0 <= k < sp.len() + 1 implies s[q + k] == (sp + seq!['}'])[k] by {
                assert(s[q + k] == sf0[nl + 3 + k]);
            }
        }
        lemma_params_roundtrip(s, q, f0.1, Map::empty());
        let e = q + sp.len() + 1;
        assert(s[e] == sf0[nl + 4 + sp.len()]);
        assert(s[e] == ' ');
        let w = e + 1;
        assert(w == i + sf0.len());
        if rest.len() == 0 {
            assert(w == s.len());
        } else {
            lemma_ser_fields_front(rest);
            assert(s[w] == reg[sf0.len() as int]);
            assert(reg[sf0.len() as int] == ser_fields(rest)[0]);
            assert(ser_fields(rest)[0] == ser_field(rest[0])[0]);
            assert(ser_field(rest[0])[0] == rest[0].0[0]) by {
                assert(is_ident_seq(rest[0].0));
            }
            assert(is_ident_start_char(rest[0].0[0]));
            assert(!is_ws_char(s[w]));
        }
        parser::lemma_ws_end_is(s, e, w);
        // the rest of the text is the serialization of the rest
        assert(s.skip(w) =~= ser_fields(rest)) by {
            assert forall|k: int| 0 <= k < s.len() - w implies s.skip(w)[k] == ser_fields(rest)[k] by {
                assert(s.skip(w)[k] == s[w + k]);
                assert(s[w + k] == reg[sf0.len() + k]);
            }
        }
        assert(s.subrange(i, i + nl) =~= name);
        lemma_fields_roundtrip(
            s,
            w,
            rest,
            acc.insert(name, crate::model::pairs_map(Map::empty(), f0.1)),
        );
    }
}

fn digit_str(d: u64) -> (r: &'static str)
    requires
        d <= 9,
    ensures
        r@ == seq![digit_char_of(d as int)],
{
    proof {
        reveal_strlit("0");
        reveal_strlit("1");
        reveal_strlit("2");
        reveal_strlit("3");
        reveal_strlit("4");
        reveal_strlit("5");
        reveal_strlit("6");
        reveal_strlit("7");
        reveal_strlit("8");
        reveal_strlit("9");
    }
    match d {
        0 => "0",
        1 => "1",
        2 => "2",
        3 => "3",
        4 => "4",
        5 => "5",
        6 => "6",
        7 => "7",
        8 => "8",
        _ => "9",
    }
}

fn push_dec(out: &mut String, n: u64)
    ensures
        final(out)@ == old(out)@ + dec_digits(n as int),
    decreases n,
{
    if n < 10 {
        out.append(digit_str(n));
        proof {
            assert(final(out)@ =~= old(out)@ + dec_digits(n as int));
        }
    } else {
        push_dec(out, n / 10);
        out.append(digit_str(n % 10));
        proof {
            assert(final(out)@ =~= old(out)@ + dec_digits(n as int));
        }
    }
}

fn push_fixed(out: &mut String, f: u64, k: usize)
    ensures
        final(out)@ == old(out)@ + fixed_digits(f as int, k as nat),
    decreases k,
{
    if k > 0 {
        push_fixed(out, f / 10, k - 1);
        out.append(digit_str(f % 10));
        proof {
            assert(final(out)@ =~= old(out)@ + fixed_digits(f as int, k as nat));
        }
    } else {
        proof {
            assert(final(out)@ =~= old(out)@ + fixed_digits(f as int, k as nat));
        }
    }
}

fn push_value(out: &mut String, v: i64)
    requires
        -MAX_SOURCE_VALUE <= v <= MAX_SOURCE_VALUE,
    ensures
        final(out)@ == old(out)@ + lit_chars(v as int),
{
    proof {
        reveal_strlit("-");
        reveal_strlit(".");
    }
    let m: u64 = if v < 0 {
        out.append("-");
        (-v) as u64
    } else {
        v as u64
    };
    let whole = m / 1_000_000;
    let fr = m % 1_000_000;
    push_dec(out, whole);
    out.append(".");
    push_fixed(out, fr, 6);
    proof {
        assert(final(out)@ =~= old(out)@ + lit_chars(v as int));
    }
}

fn push_params(out: &mut String, ps: &crate::model::ParamSet)
    requires
        wf_params_src(ps.entries_view()),
    ensures
        final(out)@ == old(out)@ + ser_params(ps.entries_view()),
{
    let n = ps.len();
    let mut idx: usize = 0;
    while idx < n
        invariant
            n == ps.entries_view().len(),
            idx <= n,
            wf_params_src(ps.entries_view()),
            out@ == old(out)@ + ser_params(ps.entries_view().take(idx as int)),
        decreases n - idx,
    {
        let name = ps.name_at(idx);
        let value = ps.value_at(idx);
        out.append(name.as_str());
        out.append(" = ");
        push_value(out, value);
        out.append(" ");
        proof {
            let ev = ps.entries_view();
            assert(ev.take(idx + 1).drop_last() =~= ev.take(idx as int));
            assert(ev.take(idx + 1).last() == ev[idx as int]);
            assert(out@ =~= old(out)@ + ser_params(ev.take(idx + 1)));
        }
        idx += 1;
    }
    proof {
        assert(ps.entries_view().take(n as int) =~= ps.entries_view());
    }
}

/// A model can be written back as Weave source whenever its names are
/// well-formed identifiers and its values fit the literal range.
pub open spec fn source_ready(m: FieldModel) -> bool {
    wf_fields_src(m.entries_pairs())
}

/// Write the model out as Weave source.
///
/// The written text parses back to exactly this model: this is the
/// parse round trip, stated in the second postcondition and proved by
/// `lemma_fields_roundtrip`.
pub fn weave_source(m: &FieldModel) -> (r: String)
    requires
        m.wf(),
        source_ready(*m),
    ensures
        r@ == ser_fields(m.entries_pairs()),
        parser::parse_file(r@) == Some(m@),
{
    proof {
        m.lemma_as_pairs();
        m.lemma_names();
    }
    let mut out = String::new();
    let n = m.num_fields();
    let mut idx: usize = 0;
    while idx < n
        invariant
            n == m.names().len(),
            idx <= n,
            m.wf(),
            source_ready(*m),
            m.entries_pairs().len() == n,
            m.params_list().len() == n,
            forall|i: int|
                0 <= i < n ==> (#[trigger] m.entries_pairs()[i]) == (
                m.names()[i],
                m.params_list()[i].entries_view(),
            ),
            out@ == ser_fields(m.entries_pairs().take(idx as int)),
        decreases n - idx,
    {
        let name = m.name_at(idx);
        let ps = m.params_at(idx);
        proof {
            assert(m.entries_pairs()[idx as int] == (
                m.names()[idx as int],
                m.params_list()[idx as int].entries_view(),
            ));
            assert(wf_params_src(m.entries_pairs()[idx as int].1));
            assert(wf_params_src(ps.entries_view()));
        }
        out.append(name.as_str());
        out.append(" { ");
        push_params(&mut out, ps);
        out.append("} ");
        proof {
            let ep = m.entries_pairs();
            assert(ep.take(idx + 1).drop_last() =~= ep.take(idx as int));
            assert(ep.take(idx + 1).last() == ep[idx as int]);
            assert(out@ =~= ser_fields(ep.take(idx + 1)));
        }
        idx += 1;
    }
    proof {
        let ep = m.entries_pairs();
        assert(ep.take(n as int) =~= ep);
        let text = out@;
        if text.len() > 0 {
            assert(ep.len() > 0);
            lemma_ser_fields_front(ep);
            assert(text[0] == ser_field(ep[0])[0]);
            assert(ser_field(ep[0])[0] == ep[0].0[0]) by {
                assert(is_ident_seq(ep[0].0));
            }
            assert(is_ident_start_char(ep[0].0[0]));
            assert(!is_ws_char(text[0]));
        }
        parser::lemma_ws_end_is(text, 0, 0);
        assert(text.skip(0) =~= text);
        lemma_fields_roundtrip(text, 0, ep, Map::empty());
    }
    out
}

} // verus!
