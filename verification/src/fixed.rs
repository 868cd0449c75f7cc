//! Decimal numbers with a fixed number of decimals, held as integers: the
//! float data of an `RD` is drawn as such integers and written back as
//! decimals.
use vstd::prelude::*;
use crate::number::{
    all_digits, decimal, decimal_u128, digits_up_to, digits_value, is_digit,
    lemma_digits_value_nonneg,
};
use crate::text::{char_position, extend, first_index, has_char, slice};

verus! {

/// Ten to the power `n`.
pub open spec fn pow10(n: nat) -> int
    decreases n,
{
    if n == 0 {
        1
    } else {
        10 * pow10((n - 1) as nat)
    }
}

/// `n` zeros.
pub open spec fn zeros(n: nat) -> Seq<char> {
    Seq::new(n, |i: int| '0')
}

/// The number of `0` at the start of `s`.
pub open spec fn lead_zeros(s: Seq<char>) -> nat
    decreases s.len(),
{
    if s.len() > 0 && s[0] == '0' {
        1 + lead_zeros(s.drop_first())
    } else {
        0
    }
}

/// The number of decimals that the step `p` of an `RDF` stands for: a step
/// `0.0..0d..` with `k` zeros after the point stands for `k + 1` decimals; a
/// step that does not start with `0.` for none.
pub open spec fn digits_of(p: Seq<char>) -> nat {
    if p.len() >= 2 && p[0] == '0' && p[1] == '.' {
        lead_zeros(p.skip(2)) + 1
    } else {
        0
    }
}

/// The first `d` decimals of `b`, with zeros after it when it is shorter.
pub open spec fn decimals(b: Seq<char>, d: nat) -> Seq<char> {
    if b.len() >= d {
        b.take(d as int)
    } else {
        b + zeros((d - b.len()) as nat)
    }
}

/// The index of the first `.` of `s`, or its length.
pub open spec fn point_at(s: Seq<char>) -> int {
    if has_char(s, '.') {
        first_index(s, '.')
    } else {
        s.len() as int
    }
}

/// A plain decimal `[-+]digits[.digits]` as an integer count of `10^-d`,
/// the decimals past `d` dropped; `None` for any other text or a count
/// outside `i64`.
pub open spec fn scaled(t: Seq<char>, d: nat) -> Option<i64> {
    let neg = t.len() > 0 && t[0] == '-';
    let body = if t.len() > 0 && (t[0] == '-' || t[0] == '+') {
        t.drop_first()
    } else {
        t
    };
    let k = point_at(body);
    let a = body.take(k);
    let b = if k < body.len() {
        body.skip(k + 1)
    } else {
        seq![]
    };
    let m = digits_value(a) * pow10(d) + digits_value(decimals(b, d));
    let v = if neg {
        -m
    } else {
        m
    };
    if all_digits(a) && all_digits(b) && a.len() + b.len() > 0 && i64::MIN <= v <= i64::MAX {
        Some(v as i64)
    } else {
        None
    }
}

/// The decimal text of `k` counts of `10^-d`: `-`, the whole part, then `.`
/// and exactly `d` decimals when `d > 0`.
pub open spec fn fixed_text(k: int, d: nat) -> Seq<char> {
    let m = if k < 0 {
        -k
    } else {
        k
    };
    let sign = if k < 0 {
        seq!['-']
    } else {
        seq![]
    };
    let f = decimal((m % pow10(d)) as nat);
    let pad = if f.len() < d {
        zeros((d - f.len()) as nat)
    } else {
        seq![]
    };
    if d == 0 {
        sign + decimal(m as nat)
    } else {
        sign + decimal((m / pow10(d)) as nat) + seq!['.'] + pad + f
    }
}

proof fn lemma_pow10_pos(n: nat)
    ensures
        pow10(n) >= 1,
    decreases n,
{
    if n > 0 {
        lemma_pow10_pos((n - 1) as nat);
    }
}

proof fn lemma_pow10_mono(a: nat, b: nat)
    requires
        a <= b,
    ensures
        pow10(a) <= pow10(b),
    decreases b,
{
    if a < b {
        lemma_pow10_mono(a, (b - 1) as nat);
        lemma_pow10_pos((b - 1) as nat);
    }
}

proof fn lemma_pow10_18()
    ensures
        pow10(18) == 1_000_000_000_000_000_000,
{
    reveal_with_fuel(pow10, 19);
}

/// `10^n`, for `n` at most 18.
pub fn pow10_u64(n: u32) -> (r: u64)
    requires
        n <= 18,
    ensures
        r == pow10(n as nat),
{
    let mut r: u64 = 1;
    let mut i: u32 = 0;
    while i < n
        invariant
            i <= n <= 18,
            r == pow10(i as nat),
        decreases n - i,
    {
        proof {
            lemma_pow10_mono((i + 1) as nat, 18);
            lemma_pow10_18();
        }
        r = r * 10;
        i += 1;
    }
    r
}


proof fn lemma_digits_bound(s: Seq<char>)
    requires
        all_digits(s),
    ensures
        0 <= digits_value(s) < pow10(s.len()),
    decreases s.len(),
{
    if s.len() > 0 {
        assert(all_digits(s.drop_last())) by {
            assert forall|i: int| 0 <= i < s.drop_last().len() implies is_digit(
                #[trigger] s.drop_last()[i],
            ) by {
                assert(s.drop_last()[i] == s[i]);
            }
        }
        lemma_digits_bound(s.drop_last());
        assert(is_digit(s[s.len() - 1]));
    }
}

/// Whether every character of `v` is a digit.
fn all_digit_chars(v: &Vec<char>) -> (r: bool)
    ensures
        r == all_digits(v@),
{
    let n = v.len();
    for i in 0..n
        invariant
            n == v.len(),
            forall|j: int| 0 <= j < i ==> is_digit(#[trigger] v@[j]),
    {
        if !('0' <= v[i] && v[i] <= '9') {
            return false;
        }
    }
    true
}

/// `digits_of`: the number of decimals of the step `p`.
pub fn digits_of_text(p: &Vec<char>) -> (r: u64)
    ensures
        r == digits_of(p@),
{
    if p.len() >= 2 && p[0] == '0' && p[1] == '.' {
        let n = p.len();
        let mut i: usize = 2;
        assert(p@.skip(2).skip(0) =~= p@.skip(2));
        while i < n && p[i] == '0'
            invariant
                2 <= i <= n == p.len(),
                lead_zeros(p@.skip(2)) == (i - 2) + lead_zeros(p@.skip(i as int)),
            decreases n - i,
        {
            assert(p@.skip(i as int).drop_first() =~= p@.skip(i + 1));
            i += 1;
        }
        assert(lead_zeros(p@.skip(i as int)) == 0) by {
            if i < n {
                assert(p@.skip(i as int)[0] == p@[i as int]);
            }
        }
        (i - 1) as u64
    } else {
        0
    }
}

/// `scaled`: a plain decimal as a count of `10^-d`.
pub fn scaled_value(t: &Vec<char>, d: u32) -> (r: Option<i64>)
    requires
        d <= 18,
    ensures
        r == scaled(t@, d as nat),
{
    let neg = t.len() > 0 && t[0] == '-';
    let start: usize = if t.len() > 0 && (t[0] == '-' || t[0] == '+') {
        1
    } else {
        0
    };
    let body = slice(t, start, t.len());
    assert(body@ == (if t@.len() > 0 && (t@[0] == '-' || t@[0] == '+') {
        t@.drop_first()
    } else {
        t@
    }));
    let k = match char_position(&body, '.') {
        Some(i) => i,
        None => body.len(),
    };
    let a = slice(&body, 0, k);
    let b = if k < body.len() {
        slice(&body, k + 1, body.len())
    } else {
        Vec::new()
    };
    assert(a@ == body@.take(k as int));
    assert(b@ == (if k < body@.len() {
        body@.skip(k + 1)
    } else {
        seq![]
    }));
    let ghost sc = scaled(t@, d as nat);
    if !all_digit_chars(&a) || !all_digit_chars(&b) || a.len() + b.len() == 0 {
        return None;
    }
    let p = pow10_u64(d);
    proof {
        lemma_pow10_pos(d as nat);
        lemma_pow10_mono(d as nat, 18);
        lemma_pow10_18();
    }
    // The first `d` decimals, with zeros after them.
    let mut f: Vec<char> = Vec::new();
    let dn = d as usize;
    let mut j: usize = 0;
    while j < dn
        invariant
            j <= dn == d,
            all_digits(b@),
            f@ == decimals(b@, d as nat).take(j as int),
        decreases dn - j,
    {
        let c = if j < b.len() {
            b[j]
        } else {
            '0'
        };
        assert(decimals(b@, d as nat).take(j + 1) =~= f@.push(c));
        f.push(c);
        j += 1;
    }
    assert(decimals(b@, d as nat).take(dn as int) =~= decimals(b@, d as nat));
    assert(all_digits(f@)) by {
        assert forall|i: int| 0 <= i < f@.len() implies is_digit(#[trigger] f@[i]) by {
            if i < b@.len() {
                assert(f@[i] == b@[i]);
            }
        }
    }
    proof {
        lemma_digits_bound(f@);
        lemma_digits_value_nonneg(a@);
    }
    let limit: u128 = 0x8000_0000_0000_0000u128;
    let av = match digits_up_to(&a, 0, limit) {
        Some(x) => x,
        None => {
            assert(a@.skip(0) =~= a@);
            assert(digits_value(a@) * pow10(d as nat) >= digits_value(a@)) by (nonlinear_arith)
                requires
                    pow10(d as nat) >= 1,
                    digits_value(a@) >= 0,
            ;
            return None;
        },
    };
    assert(a@.skip(0) =~= a@);
    let fv = match digits_up_to(&f, 0, u64::MAX as u128) {
        Some(x) => x,
        None => {
            assert(f@.skip(0) =~= f@);
            return None;
        },
    };
    assert(f@.skip(0) =~= f@);
    assert(av * (p as u128) <= limit * 1_000_000_000_000_000_000u128) by (nonlinear_arith)
        requires
            av <= limit,
            p <= 1_000_000_000_000_000_000u64,
    ;
    let m: u128 = av * (p as u128) + fv;
    if neg {
        if m <= limit {
            Some((0i128 - (m as i128)) as i64)
        } else {
            None
        }
    } else {
        if m <= 0x7fff_ffff_ffff_ffffu128 {
            Some(m as i64)
        } else {
            None
        }
    }
}

/// `fixed_text`: `k` counts of `10^-d` as a decimal.
pub fn fixed_text_of(k: i64, d: u32) -> (r: Vec<char>)
    requires
        d <= 18,
    ensures
        r@ == fixed_text(k as int, d as nat),
{
    let m: u128 = if k < 0 {
        (0i128 - (k as i128)) as u128
    } else {
        k as u128
    };
    let p = pow10_u64(d) as u128;
    proof {
        lemma_pow10_pos(d as nat);
    }
    let mut r: Vec<char> = Vec::new();
    if k < 0 {
        r.push('-');
    }
    if d == 0 {
        extend(&mut r, &decimal_u128(m));
        return r;
    }
    extend(&mut r, &decimal_u128(m / p));
    r.push('.');
    let f = decimal_u128(m % p);
    let dn = d as usize;
    let mut i: usize = f.len();
    let ghost before = r@;
    while i < dn
        invariant
            f.len() <= i,
            i <= dn || i == f.len(),
            dn == d,
            r@ == before + zeros((i - f.len()) as nat),
        decreases dn - i,
    {
        assert(zeros((i + 1 - f.len()) as nat) =~= zeros((i - f.len()) as nat).push('0'));
        r.push('0');
        i += 1;
    }
    extend(&mut r, &f);
    proof {
        if f.len() >= dn {
            assert(zeros(0) =~= Seq::<char>::empty());
        }
    }
    assert(r@ =~= fixed_text(k as int, d as nat));
    r
}

} // verus!
