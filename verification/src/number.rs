//! Decimal numbers in text: the integers that `str::parse` accepts, the
//! float literals that it accepts, and the decimal form of an integer.
use vstd::prelude::*;

verus! {

pub open spec fn is_digit(c: char) -> bool {
    '0' <= c && c <= '9'
}

pub open spec fn all_digits(s: Seq<char>) -> bool {
    forall|i: int| 0 <= i < s.len() ==> is_digit(#[trigger] s[i])
}

pub open spec fn digit_value(c: char) -> int {
    c as int - '0' as int
}

/// The value of a string of decimal digits.
pub open spec fn digits_value(s: Seq<char>) -> int
    decreases s.len(),
{
    if s.len() == 0 {
        0
    } else {
        10 * digits_value(s.drop_last()) + digit_value(s.last())
    }
}

/// What `str::parse` reads in `s` for an integer type, before the range of
/// the type is checked: an optional `+` (or `-` when `signed`), then at least
/// one ASCII digit and nothing else.
pub open spec fn integer_text(s: Seq<char>, signed: bool) -> Option<int> {
    if s.len() > 0 && s[0] == '+' {
        if s.len() > 1 && all_digits(s.drop_first()) {
            Some(digits_value(s.drop_first()))
        } else {
            None
        }
    } else if signed && s.len() > 0 && s[0] == '-' {
        if s.len() > 1 && all_digits(s.drop_first()) {
            Some(-digits_value(s.drop_first()))
        } else {
            None
        }
    } else if s.len() > 0 && all_digits(s) {
        Some(digits_value(s))
    } else {
        None
    }
}

/// `s.parse::<u64>()`.
pub open spec fn parse_u64_spec(s: Seq<char>) -> Option<u64> {
    match integer_text(s, false) {
        Some(v) => if 0 <= v <= u64::MAX {
            Some(v as u64)
        } else {
            None
        },
        None => None,
    }
}

/// `s.parse::<i64>()`.
pub open spec fn parse_i64_spec(s: Seq<char>) -> Option<i64> {
    match integer_text(s, true) {
        Some(v) => if i64::MIN <= v <= i64::MAX {
            Some(v as i64)
        } else {
            None
        },
        None => None,
    }
}

/// `s.parse::<i128>()`.
pub open spec fn parse_i128_spec(s: Seq<char>) -> Option<i128> {
    match integer_text(s, true) {
        Some(v) => if i128::MIN <= v <= i128::MAX {
            Some(v as i128)
        } else {
            None
        },
        None => None,
    }
}

pub(crate) proof fn lemma_digits_value_nonneg(s: Seq<char>)
    requires
        all_digits(s),
    ensures
        digits_value(s) >= 0,
    decreases s.len(),
{
    if s.len() > 0 {
        assert(is_digit(s[s.len() - 1]));
        lemma_digits_value_nonneg(s.drop_last());
    }
}

proof fn lemma_digits_value_mono(s: Seq<char>, i: int)
    requires
        all_digits(s),
        0 <= i <= s.len(),
    ensures
        digits_value(s.take(i)) <= digits_value(s),
    decreases s.len() - i,
{
    if i < s.len() {
        assert(s.drop_last().take(i) =~= s.take(i));
        lemma_digits_value_mono(s.drop_last(), i);
        assert(is_digit(s[s.len() - 1]));
        lemma_digits_value_nonneg(s.drop_last());
    } else {
        assert(s.take(i) =~= s);
    }
}

/// The value of the digits `v[start..]` when they are all digits and their
/// value is at most `limit`; `None` otherwise.
pub(crate) fn digits_up_to(v: &Vec<char>, start: usize, limit: u128) -> (res: Option<u128>)
    requires
        start <= v.len(),
    ensures
        match res {
            Some(x) => all_digits(v@.skip(start as int)) && x == digits_value(v@.skip(start as int))
                && x <= limit,
            None => !all_digits(v@.skip(start as int)) || digits_value(v@.skip(start as int))
                > limit,
        },
{
    let ghost t = v@.skip(start as int);
    let mut acc: u128 = 0;
    let mut i = start;
    assert(t.take(0) =~= Seq::<char>::empty());
    while i < v.len()
        invariant
            start <= i <= v.len(),
            t == v@.skip(start as int),
            all_digits(t.take(i - start)),
            acc == digits_value(t.take(i - start)),
            acc <= limit,
        decreases v.len() - i,
    {
        let c = v[i];
        assert(t[i - start] == c);
        if !('0' <= c && c <= '9') {
            return None;
        }
        let d: u128 = (c as u32 - '0' as u32) as u128;
        assert(t.take(i - start + 1).drop_last() =~= t.take(i - start));
        assert(all_digits(t.take(i - start + 1)));
        if d > limit || acc > (limit - d) / 10 {
            proof {
                assert(digits_value(t.take(i - start + 1)) == 10 * acc + d);
                if d <= limit {
                    assert(10 * acc + d > limit) by (nonlinear_arith)
                        requires
                            acc > (limit - d) / 10,
                            d <= limit,
                    {
                    }
                }
                if all_digits(t) {
                    lemma_digits_value_mono(t, i - start + 1);
                }
            }
            return None;
        }
        assert(10 * acc + d <= limit) by (nonlinear_arith)
            requires
                acc <= (limit - d) / 10,
                d <= 9,
                acc <= limit,
        {
        }
        acc = 10 * acc + d;
        i += 1;
    }
    assert(t.take(i - start) =~= t);
    Some(acc)
}

/// `s.parse::<u64>()`.
pub fn parse_u64(v: &Vec<char>) -> (res: Option<u64>)
    ensures
        res == parse_u64_spec(v@),
{
    if v.len() == 0 {
        return None;
    }
    let start: usize = if v[0] == '+' {
        1
    } else {
        0
    };
    if start == 1 && v.len() == 1 {
        return None;
    }
    assert(start == 1 ==> v@.skip(1) =~= v@.drop_first());
    assert(v@.skip(0) =~= v@);
    match digits_up_to(v, start, u64::MAX as u128) {
        Some(x) => Some(x as u64),
        None => None,
    }
}

/// Reads an optional sign and digits with at most `pos_limit` as the value of
/// a positive number and at most `neg_limit` as the magnitude of a negative one.
fn parse_signed(v: &Vec<char>, pos_limit: u128, neg_limit: u128) -> (res: Option<(bool, u128)>)
    requires
        pos_limit <= neg_limit,
    ensures
        match res {
            Some((neg, m)) => integer_text(v@, true) == Some(if neg {
                -(m as int)
            } else {
                m as int
            }) && (if neg {
                m <= neg_limit
            } else {
                m <= pos_limit
            }),
            None => match integer_text(v@, true) {
                Some(x) => x > pos_limit || x < -(neg_limit as int),
                None => true,
            },
        },
{
    if v.len() == 0 {
        return None;
    }
    let neg = v[0] == '-';
    let start: usize = if v[0] == '+' || v[0] == '-' {
        1
    } else {
        0
    };
    if start == 1 && v.len() == 1 {
        return None;
    }
    assert(start == 1 ==> v@.skip(1) =~= v@.drop_first());
    assert(v@.skip(0) =~= v@);
    let limit = if neg {
        neg_limit
    } else {
        pos_limit
    };
    match digits_up_to(v, start, limit) {
        Some(m) => Some((neg, m)),
        None => None,
    }
}

/// `s.parse::<i64>()`.
pub fn parse_i64(v: &Vec<char>) -> (res: Option<i64>)
    ensures
        res == parse_i64_spec(v@),
{
    match parse_signed(v, i64::MAX as u128, 0x8000_0000_0000_0000u128) {
        Some((neg, m)) => {
            if neg {
                Some((0 - (m as i128)) as i64)
            } else {
                Some(m as i64)
            }
        },
        None => None,
    }
}

/// `s.parse::<i128>()`.
pub fn parse_i128(v: &Vec<char>) -> (res: Option<i128>)
    ensures
        res == parse_i128_spec(v@),
{
    match parse_signed(v, i128::MAX as u128, 0x8000_0000_0000_0000_0000_0000_0000_0000u128) {
        Some((neg, m)) => {
            if neg {
                if m == 0x8000_0000_0000_0000_0000_0000_0000_0000u128 {
                    Some(i128::MIN)
                } else {
                    Some(0 - (m as i128))
                }
            } else {
                Some(m as i128)
            }
        },
        None => None,
    }
}

pub open spec fn digit_char(d: int) -> char {
    if d == 0 {
        '0'
    } else if d == 1 {
        '1'
    } else if d == 2 {
        '2'
    } else if d == 3 {
        '3'
    } else if d == 4 {
        '4'
    } else if d == 5 {
        '5'
    } else if d == 6 {
        '6'
    } else if d == 7 {
        '7'
    } else if d == 8 {
        '8'
    } else {
        '9'
    }
}

/// The decimal form of a natural number, as `Display` writes it.
pub open spec fn decimal(n: nat) -> Seq<char>
    decreases n,
{
    if n < 10 {
        seq![digit_char(n as int)]
    } else {
        decimal(n / 10).push(digit_char((n % 10) as int))
    }
}

/// The decimal form of an integer, with `-` in front of a negative one.
pub open spec fn signed_decimal(n: int) -> Seq<char> {
    if n < 0 {
        seq!['-'] + decimal((-n) as nat)
    } else {
        decimal(n as nat)
    }
}

fn digit(d: u128) -> (c: char)
    requires
        d < 10,
    ensures
        c == digit_char(d as int),
{
    if d == 0 {
        '0'
    } else if d == 1 {
        '1'
    } else if d == 2 {
        '2'
    } else if d == 3 {
        '3'
    } else if d == 4 {
        '4'
    } else if d == 5 {
        '5'
    } else if d == 6 {
        '6'
    } else if d == 7 {
        '7'
    } else if d == 8 {
        '8'
    } else {
        '9'
    }
}

/// The decimal form of `n`.
pub fn decimal_u128(n: u128) -> (res: Vec<char>)
    ensures
        res@ == decimal(n as nat),
    decreases n,
{
    if n < 10 {
        let mut v = Vec::new();
        v.push(digit(n));
        v
    } else {
        let mut v = decimal_u128(n / 10);
        v.push(digit(n % 10));
        v
    }
}

/// `u64` as `Display` writes it.
pub fn decimal_u64(n: u64) -> (res: Vec<char>)
    ensures
        res@ == decimal(n as nat),
{
    decimal_u128(n as u128)
}

/// `usize` as `Display` writes it.
pub fn decimal_usize(n: usize) -> (res: Vec<char>)
    ensures
        res@ == decimal(n as nat),
{
    decimal_u128(n as u128)
}

/// `i64` as `Display` writes it.
pub fn decimal_i64(n: i64) -> (res: Vec<char>)
    ensures
        res@ == signed_decimal(n as int),
{
    if n < 0 {
        let m: u128 = (0 - (n as i128)) as u128;
        let mut v = Vec::new();
        v.push('-');
        let d = decimal_u128(m);
        let mut i: usize = 0;
        while i < d.len()
            invariant
                i <= d.len(),
                v@ == seq!['-'] + d@.take(i as int),
            decreases d.len() - i,
        {
            v.push(d[i]);
            assert(d@.take(i + 1) == d@.take(i as int).push(d@[i as int]));
            i += 1;
        }
        assert(d@.take(d.len() as int) =~= d@);
        v
    } else {
        decimal_u128(n as u128)
    }
}

/// ASCII letters in lower case.
pub open spec fn lower(c: char) -> char {
    if 'A' <= c && c <= 'Z' {
        ((c as u32) + 32) as char
    } else {
        c
    }
}

/// Whether `s` spells `word` (in lower case) with letters of either case.
pub open spec fn spells(s: Seq<char>, word: Seq<char>) -> bool {
    s.len() == word.len() && forall|i: int| 0 <= i < s.len() ==> lower(#[trigger] s[i]) == word[i]
}

/// An exponent: an optional sign and at least one digit.
pub open spec fn exponent_text(s: Seq<char>) -> bool {
    let d = if s.len() > 0 && (s[0] == '+' || s[0] == '-') {
        s.drop_first()
    } else {
        s
    };
    d.len() > 0 && all_digits(d)
}

/// Digits with at most one `.` among them, and at least one digit.
pub open spec fn mantissa_text(s: Seq<char>) -> bool {
    match crate::text::find(s, seq!['.']) {
        Some(k) => all_digits(s.take(k)) && all_digits(s.skip(k + 1)) && s.len() >= 2,
        None => s.len() > 0 && all_digits(s),
    }
}

pub open spec fn is_e(c: char) -> bool {
    c == 'e' || c == 'E'
}

/// The first `e` or `E` in `s`.
pub open spec fn first_e(s: Seq<char>) -> Option<int>
    decreases s.len(),
{
    if s.len() == 0 {
        None
    } else if is_e(s[0]) {
        Some(0)
    } else {
        match first_e(s.drop_first()) {
            Some(k) => Some(k + 1),
            None => None,
        }
    }
}

/// What `str::parse::<f64>` accepts: an optional sign, then `inf`,
/// `infinity` or `nan` in either case, or a number: digits with at most one
/// `.`, at least one digit, and an optional exponent.
pub open spec fn float_text(s: Seq<char>) -> bool {
    let b = if s.len() > 0 && (s[0] == '+' || s[0] == '-') {
        s.drop_first()
    } else {
        s
    };
    ||| spells(b, seq!['i', 'n', 'f'])
    ||| spells(b, seq!['i', 'n', 'f', 'i', 'n', 'i', 't', 'y'])
    ||| spells(b, seq!['n', 'a', 'n'])
    ||| match first_e(b) {
        Some(k) => mantissa_text(b.take(k)) && exponent_text(b.skip(k + 1)),
        None => mantissa_text(b),
    }
}

fn lower_char(c: char) -> (r: char)
    ensures
        r == lower(c),
{
    if 'A' <= c && c <= 'Z' {
        ((c as u8) + 32) as char
    } else {
        c
    }
}

fn spells_word(v: &Vec<char>, from: usize, word: &str) -> (r: bool)
    requires
        from <= v.len(),
    ensures
        r == spells(v@.skip(from as int), word@),
{
    let w = crate::text::lit(word);
    if v.len() - from != w.len() {
        return false;
    }
    let mut i: usize = 0;
    while i < w.len()
        invariant
            from + w.len() == v.len(),
            w@ == word@,
            i <= w.len(),
            forall|j: int| 0 <= j < i ==> lower(#[trigger] v@.skip(from as int)[j]) == w@[j],
        decreases w.len() - i,
    {
        assert(v@.skip(from as int)[i as int] == v@[from + i]);
        if lower_char(v[from + i]) != w[i] {
            return false;
        }
        i += 1;
    }
    true
}

fn all_digits_in(v: &Vec<char>, from: usize, to: usize) -> (r: bool)
    requires
        from <= to <= v.len(),
    ensures
        r == all_digits(v@.subrange(from as int, to as int)),
{
    let mut i = from;
    while i < to
        invariant
            from <= i <= to <= v.len(),
            all_digits(v@.subrange(from as int, i as int)),
        decreases to - i,
    {
        let c = v[i];
        if !('0' <= c && c <= '9') {
            assert(v@.subrange(from as int, to as int)[i - from] == c);
            return false;
        }
        assert(forall|j: int|
            0 <= j < i + 1 - from ==> #[trigger] v@.subrange(from as int, i + 1)[j] == v@.subrange(
                from as int,
                i as int,
            ).push(c)[j]);
        i += 1;
    }
    true
}

fn mantissa_in(v: &Vec<char>, from: usize, to: usize) -> (r: bool)
    requires
        from <= to <= v.len(),
    ensures
        r == mantissa_text(v@.subrange(from as int, to as int)),
{
    let m = crate::text::slice(v, from, to);
    let dot = crate::text::lit(".");
    proof {
        reveal_strlit(".");
    }
    assert(dot@ =~= seq!['.']);
    match crate::text::find_chars(&m, &dot) {
        Some(k) => {
            assert(m@.take(k as int) =~= v@.subrange(from as int, from + k));
            assert(m@.skip(k + 1) =~= v@.subrange(from + k + 1, to as int));
            all_digits_in(v, from, from + k) && all_digits_in(v, from + k + 1, to) && m.len() >= 2
        },
        None => m.len() > 0 && all_digits_in(v, from, to),
    }
}

/// Whether `str::parse::<f64>` accepts `v`.
pub fn is_float_text(v: &Vec<char>) -> (r: bool)
    ensures
        r == float_text(v@),
{
    let start: usize = if v.len() > 0 && (v[0] == '+' || v[0] == '-') {
        1
    } else {
        0
    };
    let ghost b = v@.skip(start as int);
    assert(start == 1 ==> b =~= v@.drop_first());
    assert(start == 0 ==> b =~= v@);
    if spells_word(v, start, "inf") || spells_word(v, start, "infinity") || spells_word(
        v,
        start,
        "nan",
    ) {
        proof {
            reveal_strlit("inf");
            reveal_strlit("infinity");
            reveal_strlit("nan");
        }
        assert("inf"@ =~= seq!['i', 'n', 'f']);
        assert("infinity"@ =~= seq!['i', 'n', 'f', 'i', 'n', 'i', 't', 'y']);
        assert("nan"@ =~= seq!['n', 'a', 'n']);
        return true;
    }
    proof {
        reveal_strlit("inf");
        reveal_strlit("infinity");
        reveal_strlit("nan");
    }
    assert("inf"@ =~= seq!['i', 'n', 'f']);
    assert("infinity"@ =~= seq!['i', 'n', 'f', 'i', 'n', 'i', 't', 'y']);
    assert("nan"@ =~= seq!['n', 'a', 'n']);
    // the first `e` or `E` after the sign
    let mut k = start;
    assert(b.skip(0) =~= b);
    while k < v.len() && !(v[k] == 'e' || v[k] == 'E')
        invariant
            start <= k <= v.len(),
            b == v@.skip(start as int),
            first_e(b) == (match first_e(b.skip(k - start)) {
                Some(j) => Some(j + (k - start)),
                None => None,
            }),
        decreases v.len() - k,
    {
        assert(b.skip(k - start).drop_first() =~= b.skip(k - start + 1));
        k += 1;
    }
    if k < v.len() {
        assert(is_e(b.skip(k - start)[0]));
        assert(b.take(k - start) =~= v@.subrange(start as int, k as int));
        assert(b.skip(k - start + 1) =~= v@.subrange(k + 1, v.len() as int));
        let m = mantissa_in(v, start, k);
        let e = crate::text::slice(v, k + 1, v.len());
        let estart: usize = if e.len() > 0 && (e[0] == '+' || e[0] == '-') {
            1
        } else {
            0
        };
        assert(estart == 1 ==> e@.drop_first() =~= e@.subrange(1, e.len() as int));
        assert(estart == 0 ==> e@ =~= e@.subrange(0, e.len() as int));
        m && e.len() > estart && all_digits_in(&e, estart, e.len())
    } else {
        assert(b.skip(k - start) =~= Seq::<char>::empty());
        assert(b =~= v@.subrange(start as int, v.len() as int));
        mantissa_in(v, start, v.len())
    }
}

proof fn lemma_digit_char(d: int)
    requires
        0 <= d < 10,
    ensures
        is_digit(digit_char(d)),
        digit_value(digit_char(d)) == d,
{
}

proof fn lemma_decimal_digits(n: nat)
    ensures
        all_digits(decimal(n)),
        digits_value(decimal(n)) == n,
        decimal(n).len() > 0,
    decreases n,
{
    if n < 10 {
        lemma_digit_char(n as int);
        assert(decimal(n).drop_last() =~= Seq::<char>::empty());
        assert(digits_value(Seq::<char>::empty()) == 0);
        assert(digits_value(decimal(n)) == n);
    } else {
        lemma_decimal_digits(n / 10);
        lemma_digit_char((n % 10) as int);
        let d = decimal(n);
        assert(d.drop_last() =~= decimal(n / 10));
        assert forall|i: int| 0 <= i < d.len() implies is_digit(#[trigger] d[i]) by {
            if i < d.len() - 1 {
                assert(d[i] == decimal(n / 10)[i]);
            }
        }
        assert(n == 10 * (n / 10) + n % 10);
        assert(d.last() == digit_char((n % 10) as int));
        assert(digits_value(d) == 10 * digits_value(d.drop_last()) + digit_value(d.last()));
        assert(digits_value(d.drop_last()) == n / 10);
        assert(digits_value(d) == n);
    }
}

/// The decimal form of a number reads back as the number.
pub proof fn law_decimal_parse(n: u64)
    ensures
        parse_u64_spec(decimal(n as nat)) == Some(n),
{
    lemma_decimal_digits(n as nat);
    let d = decimal(n as nat);
    assert(is_digit(d[0]));
}


/// The signed decimal form of an `i64` reads back as the number: what the
/// compiler writes of a range, the machine reads back.
pub proof fn law_signed_decimal_parse(n: i64)
    ensures
        parse_i64_spec(signed_decimal(n as int)) == Some(n),
{
    if n < 0 {
        let m: nat = (-n) as nat;
        lemma_decimal_digits(m);
        let d = decimal(m);
        let s = signed_decimal(n as int);
        assert(s == seq!['-'] + d);
        assert(s.drop_first() =~= d);
        assert(s[0] == '-');
        assert(is_digit(d[0]));
    } else {
        lemma_decimal_digits(n as nat);
        let d = decimal(n as nat);
        assert(is_digit(d[0]));
    }
}

} // verus!
