//! Random data for a variable: the items of an `RD` command, drawn from its
//! integer ranges, float ranges and characters with the thread's random
//! generator, in shares weighted by how many values each holds.
use vstd::prelude::*;
use rand::distributions::uniform::{UniformInt, UniformSampler};
use rand::seq::SliceRandom;
use crate::variable::covered;
use crate::fixed::{fixed_text, fixed_text_of};

verus! {

/// `UniformInt::<i64>::new_inclusive(low, high)`, sampled once with
/// `rand::thread_rng()`: an integer from `low` to `high`, both included
/// (the crate asserts `low <= high`). Which one comes out is chance, and is
/// not stated.
#[verifier::external_body]
fn sample_inclusive(low: i64, high: i64) -> (r: i64)
    requires
        low <= high,
    ensures
        low <= r <= high,
{
    let gen: UniformInt<i64> = UniformInt::new_inclusive(low, high);
    let mut rng = rand::thread_rng();
    gen.sample(&mut rng)
}

/// `UniformInt::<usize>::new(0, len)`, sampled once with `rand::thread_rng()`:
/// an index below `len` (the crate asserts `0 < len`). Which one comes out is
/// chance, and is not stated.
#[verifier::external_body]
fn sample_index(len: usize) -> (r: usize)
    requires
        0 < len,
    ensures
        r < len,
{
    let gen: UniformInt<usize> = UniformInt::new(0, len);
    let mut rng = rand::thread_rng();
    gen.sample(&mut rng)
}

/// `count` integers drawn from the range `range`, both ends included.
pub fn gen_ints(range: (i64, i64), count: u64) -> (res: Vec<i64>)
    requires
        range.0 <= range.1,
    ensures
        res@.len() == count,
        forall|i: int| 0 <= i < res@.len() ==> range.0 <= #[trigger] res@[i] <= range.1,
{
    let mut res: Vec<i64> = Vec::new();
    let mut k: u64 = 0;
    while k < count
        invariant
            range.0 <= range.1,
            k <= count,
            res@.len() == k,
            forall|i: int| 0 <= i < res@.len() ==> range.0 <= #[trigger] res@[i] <= range.1,
        decreases count - k,
    {
        let x = sample_inclusive(range.0, range.1);
        res.push(x);
        k += 1;
    }
    res
}

/// `quantity` characters drawn from the set `set`, which must not be empty.
pub fn gen_chars(set: &Vec<char>, quantity: u64) -> (res: Vec<char>)
    requires
        set@.len() > 0,
    ensures
        res@.len() == quantity,
        forall|i: int| 0 <= i < res@.len() ==> set@.contains(#[trigger] res@[i]),
{
    let mut res: Vec<char> = Vec::new();
    let mut k: u64 = 0;
    while k < quantity
        invariant
            set@.len() > 0,
            k <= quantity,
            res@.len() == k,
            forall|i: int| 0 <= i < res@.len() ==> set@.contains(#[trigger] res@[i]),
        decreases quantity - k,
    {
        let id = sample_index(set.len());
        let c = set[id];
        assert(set@[id as int] == c);
        res.push(c);
        k += 1;
    }
    res
}


/// `UniformInt::<u128>::new(0, bound)`, sampled once with `rand::thread_rng()`:
/// a number below `bound` (the crate asserts `0 < bound`). Which one comes out
/// is chance, and is not stated.
#[verifier::external_body]
fn sample_below(bound: u128) -> (r: u128)
    requires
        0 < bound,
    ensures
        r < bound,
{
    let gen: UniformInt<u128> = UniformInt::new(0, bound);
    let mut rng = rand::thread_rng();
    gen.sample(&mut rng)
}

/// `SliceRandom::shuffle` with `rand::thread_rng()`: the items in some order
/// (the crate swaps them in place). Which order comes out is chance, and is
/// not stated.
#[verifier::external_body]
fn shuffle_items(v: &mut Vec<Vec<char>>)
    ensures
        final(v)@.to_multiset() == old(v)@.to_multiset(),
{
    let mut rng = rand::thread_rng();
    v.shuffle(&mut rng);
}

/// What the data of an `RD` is drawn from: integer ranges, float ranges held
/// as counts of `10^-digits`, and characters.
pub struct Materials {
    pub ints: Seq<(i64, i64)>,
    pub floats: Seq<(i64, i64)>,
    pub digits: nat,
    pub chars: Seq<char>,
}

/// Whether the text of an item is the decimal form of an integer of the
/// integer ranges, the decimal with `digits` decimals of a count of the float
/// ranges, or one character of the set.
pub open spec fn item_fits(t: Seq<char>, m: Materials) -> bool {
    ||| exists|x: i64| covered(m.ints, x as int) && t == crate::number::signed_decimal(x as int)
    ||| exists|x: i64| covered(m.floats, x as int) && t == fixed_text(x as int, m.digits)
    ||| t.len() == 1 && m.chars.contains(t[0])
}

/// Whether every range has its low end at or below its high end.
pub open spec fn ranges_ok(ints: Seq<(i64, i64)>) -> bool {
    forall|i: int| 0 <= i < ints.len() ==> (#[trigger] ints[i]).0 <= ints[i].1
}

/// The number of integers in the ranges, counted once per range.
pub open spec fn width_sum(ints: Seq<(i64, i64)>) -> int
    decreases ints.len(),
{
    if ints.len() == 0 {
        0
    } else {
        (ints[0].1 - ints[0].0 + 1) + width_sum(ints.drop_first())
    }
}

/// `q * w / t`, rounded up: the share of `q` items that weight `w` of the
/// total `t` gets.
pub open spec fn share(q: int, w: int, t: int) -> int {
    (q * w + t - 1) / t
}

/// The number of items an `RD` of quantity `q` writes: the shares of the
/// integers, the floats and the characters, weighted by how many there are
/// of each, at most `q` in all; none when there is nothing to draw from.
pub open spec fn item_count(q: u64, m: Materials) -> int {
    let wi = width_sum(m.ints);
    let wf = width_sum(m.floats);
    let ws = m.chars.len() as int;
    let t = wi + wf + ws;
    if t == 0 {
        0
    } else {
        let n = share(q as int, wi, t) + share(q as int, wf, t) + share(q as int, ws, t);
        if n < q {
            n
        } else {
            q as int
        }
    }
}

/// Whether the items can be drawn: the ranges are well formed, and the
/// weights stay within `u128`.
pub open spec fn items_drawable(q: u64, m: Materials) -> bool {
    &&& ranges_ok(m.ints)
    &&& ranges_ok(m.floats)
    &&& (q + 1) * (width_sum(m.ints) + width_sum(m.floats) + m.chars.len()) <= u128::MAX
}

proof fn lemma_width_sum_nonneg(ints: Seq<(i64, i64)>)
    requires
        ranges_ok(ints),
    ensures
        width_sum(ints) >= ints.len(),
    decreases ints.len(),
{
    if ints.len() > 0 {
        assert(ranges_ok(ints.drop_first())) by {
            assert forall|i: int| 0 <= i < ints.drop_first().len() implies (
            #[trigger] ints.drop_first()[i]).0 <= ints.drop_first()[i].1 by {
                assert(ints.drop_first()[i] == ints[i + 1]);
            }
        }
        lemma_width_sum_nonneg(ints.drop_first());
        assert(ints[0].0 <= ints[0].1);
    }
}

/// `q * w / t` rounded up, for `w <= t` and `(q + 1) * t` within `u128`.
pub fn mix_share(q: u64, w: u128, t: u128) -> (r: u128)
    requires
        0 < t,
        w <= t,
        (q + 1) * t <= u128::MAX,
    ensures
        r == share(q as int, w as int, t as int),
        r <= q,
{
    assert(q * w <= q * t) by (nonlinear_arith)
        requires
            w <= t,
    ;
    assert((q + 1) * t == q * t + t) by (nonlinear_arith);
    let num: u128 = (q as u128) * w + t - 1;
    assert(num < (q + 1) * t);
    assert(num / t <= q) by (nonlinear_arith)
        requires
            num < (q + 1) * t,
            t > 0,
    ;
    num / t
}

/// The weight of the ranges: how many integers they hold, counted once per
/// range; `None` when a range is reversed or the count leaves `u128`.
fn range_weight(ints: &Vec<(i64, i64)>) -> (r: Option<u128>)
    ensures
        r is Some <==> ranges_ok(ints@) && width_sum(ints@) <= u128::MAX,
        r is Some ==> r->0 == width_sum(ints@),
{
    let n = ints.len();
    let mut i: usize = 0;
    while i < n
        invariant
            i <= n == ints.len(),
            forall|j: int| 0 <= j < i ==> (#[trigger] ints@[j]).0 <= ints@[j].1,
        decreases n - i,
    {
        if ints[i].1 < ints[i].0 {
            return None;
        }
        i += 1;
    }
    assert(ranges_ok(ints@));
    let mut total: u128 = 0;
    let mut k: usize = n;
    // Summing from the back keeps `width_sum` of the tail at hand.
    assert(ints@.skip(n as int) =~= Seq::<(i64, i64)>::empty());
    while k > 0
        invariant
            k <= n == ints.len(),
            ranges_ok(ints@),
            total == width_sum(ints@.skip(k as int)),
        decreases k,
    {
        let (lo, hi) = ints[k - 1];
        assert(ints@.skip(k - 1).drop_first() =~= ints@.skip(k as int));
        assert(ints@.skip(k - 1)[0] == ints@[k - 1]);
        assert(ints@[k - 1].0 <= ints@[k - 1].1);
        let w: u128 = ((hi as i128) - (lo as i128) + 1) as u128;
        match total.checked_add(w) {
            Some(t) => {
                total = t;
            },
            None => {
                proof {
                    lemma_width_sum_prefix(ints@, (k - 1) as int);
                }
                return None;
            },
        }
        k -= 1;
    }
    assert(ints@.skip(0) =~= ints@);
    Some(total)
}

proof fn lemma_width_sum_prefix(ints: Seq<(i64, i64)>, k: int)
    requires
        0 <= k <= ints.len(),
        ranges_ok(ints),
    ensures
        width_sum(ints) >= width_sum(ints.skip(k)),
    decreases k,
{
    if k > 0 {
        assert(ints.drop_first().skip(k - 1) =~= ints.skip(k));
        assert(ranges_ok(ints.drop_first())) by {
            assert forall|i: int| 0 <= i < ints.drop_first().len() implies (
            #[trigger] ints.drop_first()[i]).0 <= ints.drop_first()[i].1 by {
                assert(ints.drop_first()[i] == ints[i + 1]);
            }
        }
        lemma_width_sum_prefix(ints.drop_first(), k - 1);
        assert(ints[0].0 <= ints[0].1);
        assert(width_sum(ints) == (ints[0].1 - ints[0].0 + 1) + width_sum(ints.drop_first()));
    } else {
        assert(ints.skip(0) =~= ints);
    }
}

/// The integer at place `idx` when the ranges are laid end to end.
/// The integer at place `idx` when the ranges are laid end to end, each from
/// its low end to its high end.
pub open spec fn value_at(ints: Seq<(i64, i64)>, idx: int) -> int
    decreases ints.len(),
{
    if ints.len() == 0 {
        0
    } else if idx < ints[0].1 - ints[0].0 + 1 {
        ints[0].0 + idx
    } else {
        value_at(ints.drop_first(), idx - (ints[0].1 - ints[0].0 + 1))
    }
}

fn int_at(ints: &Vec<(i64, i64)>, idx: u128) -> (x: i64)
    requires
        ranges_ok(ints@),
        idx < width_sum(ints@),
    ensures
        x == value_at(ints@, idx as int),
        covered(ints@, x as int),
{
    let n = ints.len();
    let mut k: usize = 0;
    let mut rest: u128 = idx;
    assert(ints@.skip(0) =~= ints@);
    while k < n
        invariant
            k <= n == ints.len(),
            ranges_ok(ints@),
            rest < width_sum(ints@.skip(k as int)),
            value_at(ints@, idx as int) == value_at(ints@.skip(k as int), rest as int),
        decreases n - k,
    {
        let (lo, hi) = ints[k];
        let ghost tail = ints@.skip(k as int);
        assert(tail[0] == ints@[k as int]);
        assert(tail.drop_first() =~= ints@.skip(k + 1));
        let w: u128 = ((hi as i128) - (lo as i128) + 1) as u128;
        assert(ints@[k as int].0 <= ints@[k as int].1);
        if rest < w {
            let x: i64 = ((lo as i128) + (rest as i128)) as i64;
            assert(ints@[k as int].0 <= x <= ints@[k as int].1);
            return x;
        }
        rest = rest - w;
        k += 1;
    }
    assert(ints@.skip(n as int) =~= Seq::<(i64, i64)>::empty());
    0
}

/// The text of the drawn number `x`: a decimal with `digits` decimals for a
/// float count, the integer itself otherwise.
pub open spec fn num_text(x: int, fixed: bool, digits: nat) -> Seq<char> {
    if fixed {
        fixed_text(x, digits)
    } else {
        crate::number::signed_decimal(x)
    }
}

/// Whether `t` is the text of the number at some place of the ranges laid
/// end to end.
pub open spec fn drawn_from(t: Seq<char>, rs: Seq<(i64, i64)>, fixed: bool, digits: nat) -> bool {
    exists|idx: int| 0 <= idx < width_sum(rs) && t == num_text(value_at(rs, idx), fixed, digits)
}

/// Whether `t` is one character of the set.
pub open spec fn letter_of(t: Seq<char>, chars: Seq<char>) -> bool {
    t.len() == 1 && chars.contains(t[0])
}

/// The shares of the integers, the floats and the characters.
pub open spec fn shares(q: u64, m: Materials) -> (int, int, int) {
    let wi = width_sum(m.ints);
    let wf = width_sum(m.floats);
    let ws = m.chars.len() as int;
    let t = wi + wf + ws;
    if t == 0 {
        (0, 0, 0)
    } else {
        (share(q as int, wi, t), share(q as int, wf, t), share(q as int, ws, t))
    }
}

/// Whether `pool` holds the draws of an `RD`: its share of integers, then
/// its share of floats, then its share of characters.
pub open spec fn pool_of(pool: Seq<Vec<char>>, q: u64, m: Materials) -> bool {
    let (qi, qf, qs) = shares(q, m);
    &&& pool.len() == qi + qf + qs
    &&& forall|i: int| 0 <= i < qi ==> drawn_from(#[trigger] pool[i]@, m.ints, false, 0)
    &&& forall|i: int|
        qi <= i < qi + qf ==> drawn_from(#[trigger] pool[i]@, m.floats, true, m.digits)
    &&& forall|i: int| qi + qf <= i < pool.len() ==> letter_of(#[trigger] pool[i]@, m.chars)
}

/// Pushes the characters of `drawn`, each as an item of its own.
fn push_letters(items: &mut Vec<Vec<char>>, drawn: &Vec<char>, m: Ghost<Materials>)
    requires
        forall|i: int| 0 <= i < drawn@.len() ==> m@.chars.contains(#[trigger] drawn@[i]),
        forall|i: int| 0 <= i < old(items)@.len() ==> item_fits(#[trigger] old(items)@[i]@, m@),
    ensures
        final(items)@.len() == old(items)@.len() + drawn@.len(),
        forall|i: int| 0 <= i < final(items)@.len() ==> item_fits(#[trigger] final(items)@[i]@, m@),
        final(items)@.take(old(items)@.len() as int) == old(items)@,
        forall|i: int|
            old(items)@.len() <= i < final(items)@.len() ==> letter_of(
                #[trigger] final(items)@[i]@,
                m@.chars,
            ),
{
    let n = drawn.len();
    let ghost start = items@.len();
    for j in 0..n
        invariant
            n == drawn@.len(),
            forall|i: int| 0 <= i < drawn@.len() ==> m@.chars.contains(#[trigger] drawn@[i]),
            items@.len() == start + j,
            forall|i: int| 0 <= i < items@.len() ==> item_fits(#[trigger] items@[i]@, m@),
            items@.take(start as int) == old(items)@,
            forall|i: int| start <= i < items@.len() ==> letter_of(#[trigger] items@[i]@, m@.chars),
    {
        let c = drawn[j];
        let mut t: Vec<char> = Vec::new();
        t.push(c);
        assert(m@.chars.contains(drawn@[j as int]));
        assert(t@.len() == 1 && t@[0] == c);
        let ghost before = items@;
        items.push(t);
        assert(items@.take(start as int) =~= before.take(start as int));
    }
}

/// Pushes `count` items drawn from the ranges `rs`: the integers themselves,
/// or, with `digits`, decimals with that many decimals.
fn push_drawn(
    items: &mut Vec<Vec<char>>,
    rs: &Vec<(i64, i64)>,
    w: u128,
    count: u128,
    fixed: bool,
    digits: u32,
    m: Ghost<Materials>,
)
    requires
        ranges_ok(rs@),
        w == width_sum(rs@),
        count == 0 || w > 0,
        digits <= 18,
        fixed ==> rs@ == m@.floats && digits == m@.digits,
        !fixed ==> rs@ == m@.ints,
        forall|i: int| 0 <= i < old(items)@.len() ==> item_fits(#[trigger] old(items)@[i]@, m@),
    ensures
        final(items)@.len() == old(items)@.len() + count,
        forall|i: int| 0 <= i < final(items)@.len() ==> item_fits(#[trigger] final(items)@[i]@, m@),
        final(items)@.take(old(items)@.len() as int) == old(items)@,
        forall|i: int|
            old(items)@.len() <= i < final(items)@.len() ==> drawn_from(
                #[trigger] final(items)@[i]@,
                rs@,
                fixed,
                digits as nat,
            ),
{
    let ghost start = items@.len();
    let mut k: u128 = 0;
    while k < count
        invariant
            k <= count,
            count == 0 || w > 0,
            w == width_sum(rs@),
            ranges_ok(rs@),
            digits <= 18,
            fixed ==> rs@ == m@.floats && digits == m@.digits,
            !fixed ==> rs@ == m@.ints,
            items@.len() == start + k,
            forall|i: int| 0 <= i < items@.len() ==> item_fits(#[trigger] items@[i]@, m@),
            items@.take(start as int) == old(items)@,
            forall|i: int|
                start <= i < items@.len() ==> drawn_from(
                    #[trigger] items@[i]@,
                    rs@,
                    fixed,
                    digits as nat,
                ),
        decreases count - k,
    {
        let idx = sample_below(w);
        let x = int_at(rs, idx);
        let ghost before = items@;
        if fixed {
            let t = fixed_text_of(x, digits);
            assert(item_fits(t@, m@));
            assert(t@ == num_text(value_at(rs@, idx as int), fixed, digits as nat));
            items.push(t);
        } else {
            let t = crate::number::decimal_i64(x);
            assert(item_fits(t@, m@));
            assert(t@ == num_text(value_at(rs@, idx as int), fixed, digits as nat));
            items.push(t);
        }
        assert(items@.take(start as int) =~= before.take(start as int));
        k += 1;
    }
}

proof fn lemma_take_subset(s: Seq<Vec<char>>, n: int)
    requires
        0 <= n <= s.len(),
    ensures
        s.take(n).to_multiset().subset_of(s.to_multiset()),
{
    broadcast use vstd::multiset::group_multiset_axioms;

    assert(s =~= s.take(n) + s.skip(n));
    vstd::seq_lib::lemma_multiset_commutative(s.take(n), s.skip(n));
}

/// The share of `q` items for weight `w` of the total `t`.
fn share_of(q: u64, w: u128, t: u128) -> (r: u128)
    requires
        0 < t,
        w <= t,
        (q + 1) * t <= u128::MAX,
    ensures
        r == share(q as int, w as int, t as int),
        r <= q,
        w == 0 ==> r == 0,
{
    let r = mix_share(q, w, t);
    assert(w == 0 ==> r == 0) by {
        if w == 0 {
            assert((q * 0 + t - 1) / (t as int) == 0) by (nonlinear_arith)
                requires
                    t > 0,
            ;
        }
    }
    r
}

/// The items of an `RD`: `item_count` of them, drawn from the integer
/// ranges, the float ranges and the characters, shuffled; `None` when the
/// items cannot be drawn (`items_drawable`).
pub fn gen_items(
    ints: &Vec<(i64, i64)>,
    floats: &Vec<(i64, i64)>,
    digits: u32,
    chars: &Vec<char>,
    quantity: u64,
) -> (r: Option<Vec<Vec<char>>>)
    requires
        digits <= 18,
    ensures
        ({
            let m = Materials { ints: ints@, floats: floats@, digits: digits as nat, chars: chars@ };
            &&& r is Some <==> items_drawable(quantity, m)
            &&& r is Some ==> r->0@.len() == item_count(quantity, m)
            &&& r is Some ==> forall|i: int|
                0 <= i < r->0@.len() ==> item_fits(#[trigger] r->0@[i]@, m)
            &&& r is Some ==> exists|pool: Seq<Vec<char>>|
                #[trigger] pool_of(pool, quantity, m) && r->0@.to_multiset().subset_of(
                    pool.to_multiset(),
                )
        }),
{
    let ghost m = Materials { ints: ints@, floats: floats@, digits: digits as nat, chars: chars@ };
    let ghost total = width_sum(ints@) + width_sum(floats@) + chars@.len();
    let wi = match range_weight(ints) {
        Some(w) => w,
        None => {
            proof {
                if ranges_ok(ints@) && ranges_ok(floats@) {
                    lemma_width_sum_nonneg(ints@);
                    lemma_width_sum_nonneg(floats@);
                    assert((quantity + 1) * total >= total) by (nonlinear_arith)
                        requires
                            total >= 0,
                    ;
                }
            }
            return None;
        },
    };
    let wf = match range_weight(floats) {
        Some(w) => w,
        None => {
            proof {
                if ranges_ok(ints@) && ranges_ok(floats@) {
                    lemma_width_sum_nonneg(ints@);
                    lemma_width_sum_nonneg(floats@);
                    assert((quantity + 1) * total >= total) by (nonlinear_arith)
                        requires
                            total >= 0,
                    ;
                }
            }
            return None;
        },
    };
    proof {
        lemma_width_sum_nonneg(ints@);
        lemma_width_sum_nonneg(floats@);
    }
    let ws: u128 = chars.len() as u128;
    let t: u128 = match wi.checked_add(wf) {
        Some(x) => match x.checked_add(ws) {
            Some(y) => y,
            None => {
                proof {
                    assert((quantity + 1) * total >= total) by (nonlinear_arith)
                        requires
                            total >= 0,
                    ;
                }
                return None;
            },
        },
        None => {
            proof {
                assert((quantity + 1) * total >= total) by (nonlinear_arith)
                    requires
                        total >= 0,
                ;
            }
            return None;
        },
    };
    let q1: u128 = match (quantity as u128).checked_add(1) {
        Some(v) => v,
        None => {
            return None;
        },
    };
    match q1.checked_mul(t) {
        Some(_) => {},
        None => {
            return None;
        },
    }
    assert(items_drawable(quantity, m));
    let mut items: Vec<Vec<char>> = Vec::new();
    if t == 0 {
        assert(pool_of(items@, quantity, m));
        assert(items@.to_multiset().subset_of(items@.to_multiset()));
        return Some(items);
    }
    let qi = share_of(quantity, wi, t);
    let qf = share_of(quantity, wf, t);
    let qs = share_of(quantity, ws, t);
    push_drawn(&mut items, ints, wi, qi, false, digits, Ghost(m));
    let ghost p0 = items@;
    push_drawn(&mut items, floats, wf, qf, true, digits, Ghost(m));
    let ghost p1 = items@;
    let drawn = if qs > 0 {
        gen_chars(chars, qs as u64)
    } else {
        Vec::new()
    };
    push_letters(&mut items, &drawn, Ghost(m));
    let ghost before = items@;
    assert(pool_of(before, quantity, m)) by {
        assert forall|i: int| 0 <= i < qi implies drawn_from(#[trigger] before[i]@, m.ints, false, 0) by {
            assert(before[i] == p1[i]);
            assert(p1[i] == p0[i]);
            assert(drawn_from(p0[i]@, ints@, false, digits as nat));
            let idx = choose|idx: int|
                0 <= idx < width_sum(ints@) && p0[i]@ == num_text(
                    value_at(ints@, idx),
                    false,
                    digits as nat,
                );
            assert(p0[i]@ == num_text(value_at(ints@, idx), false, 0));
        }
        assert forall|i: int| qi <= i < qi + qf implies drawn_from(
            #[trigger] before[i]@,
            m.floats,
            true,
            m.digits,
        ) by {
            assert(before[i] == p1[i]);
        }
    }
    shuffle_items(&mut items);
    proof {
        items@.to_multiset_ensures();
        before.to_multiset_ensures();
        assert forall|i: int| 0 <= i < items@.len() implies item_fits(#[trigger] items@[i]@, m) by {
            assert(items@.to_multiset().count(items@[i]) > 0);
            assert(before.to_multiset().count(items@[i]) > 0);
            let k = choose|k: int| 0 <= k < before.len() && before[k] == items@[i];
            assert(item_fits(before[k]@, m));
        }
    }
    let n: u128 = if (quantity as u128) < qi + qf + qs {
        quantity as u128
    } else {
        qi + qf + qs
    };
    let len = items.len();
    assert(n <= len);
    let ghost shuffled = items@;
    items.truncate(n as usize);
    proof {
        lemma_take_subset(shuffled, n as int);
        assert(items@ == shuffled.take(n as int));
        assert(items@.to_multiset().subset_of(before.to_multiset()));
    }
    Some(items)
}


proof fn lemma_share_covers(q: int, w: int, t: int)
    requires
        t > 0,
        q >= 0,
        w >= 0,
    ensures
        share(q, w, t) * t >= q * w,
        share(q, w, t) >= 0,
{
    let n = q * w + t - 1;
    assert(q * w >= 0) by (nonlinear_arith)
        requires
            q >= 0,
            w >= 0,
    ;
    let c = n / t;
    vstd::arithmetic::div_mod::lemma_fundamental_div_mod(n, t);
    vstd::arithmetic::div_mod::lemma_mod_pos_bound(n, t);
    assert(t * c == c * t) by (nonlinear_arith);
    assert(c >= 0) by (nonlinear_arith)
        requires
            t > 0,
            n >= 0,
            t * c + n % t == n,
            n % t < t,
    ;
}

/// An `RD` with something to draw from writes exactly its quantity of items:
/// the rounded-up shares together are never fewer than the quantity.
pub proof fn law_item_count(q: u64, m: Materials)
    requires
        ranges_ok(m.ints),
        ranges_ok(m.floats),
        width_sum(m.ints) + width_sum(m.floats) + m.chars.len() > 0,
    ensures
        item_count(q, m) == q,
{
    lemma_width_sum_nonneg(m.ints);
    lemma_width_sum_nonneg(m.floats);
    let wi = width_sum(m.ints);
    let wf = width_sum(m.floats);
    let ws = m.chars.len() as int;
    let t = wi + wf + ws;
    lemma_share_covers(q as int, wi, t);
    lemma_share_covers(q as int, wf, t);
    lemma_share_covers(q as int, ws, t);
    let a = share(q as int, wi, t);
    let b = share(q as int, wf, t);
    let c = share(q as int, ws, t);
    assert((a + b + c) * t >= q * t) by (nonlinear_arith)
        requires
            a * t >= q * wi,
            b * t >= q * wf,
            c * t >= q * ws,
            t == wi + wf + ws,
    ;
    assert(a + b + c >= q) by (nonlinear_arith)
        requires
            (a + b + c) * t >= q * t,
            t > 0,
    ;
}


/// A copy of the ranges.
fn copy_ranges(v: &Vec<(i64, i64)>) -> (r: Vec<(i64, i64)>)
    ensures
        r@ == v@,
{
    let mut r: Vec<(i64, i64)> = Vec::new();
    for i in 0..v.len()
        invariant
            r@ == v@.take(i as int),
    {
        r.push(v[i]);
        assert(v@.take(i + 1) =~= v@.take(i as int).push(v@[i as int]));
    }
    assert(v@.take(v@.len() as int) =~= v@);
    r
}

/// A generator of the data of one `RD`: its quantity, the materials given to
/// it (each kind at most once), and the items drawn, kept once drawn.
pub struct Gener {
    quantity: u64,
    ints: Option<Vec<(i64, i64)>>,
    floats: Option<(Vec<(i64, i64)>, u32)>,
    chars: Option<Vec<char>>,
    res: Option<Vec<Vec<char>>>,
}

/// What a generator holds.
pub struct GenerView {
    pub quantity: u64,
    pub ints: Option<Seq<(i64, i64)>>,
    pub floats: Option<(Seq<(i64, i64)>, nat)>,
    pub chars: Option<Seq<char>>,
    pub res: Option<Seq<Vec<char>>>,
}

/// The materials given to a generator, with none for a kind not given.
pub open spec fn gener_materials(g: GenerView) -> Materials {
    Materials {
        ints: match g.ints {
            Some(v) => v,
            None => seq![],
        },
        floats: match g.floats {
            Some(f) => f.0,
            None => seq![],
        },
        digits: match g.floats {
            Some(f) => f.1,
            None => 0,
        },
        chars: match g.chars {
            Some(v) => v,
            None => seq![],
        },
    }
}

impl View for Gener {
    type V = GenerView;

    closed spec fn view(&self) -> GenerView {
        GenerView {
            quantity: self.quantity,
            ints: match &self.ints {
                Some(v) => Some(v@),
                None => None,
            },
            floats: match &self.floats {
                Some(f) => Some((f.0@, f.1 as nat)),
                None => None,
            },
            chars: match &self.chars {
                Some(v) => Some(v@),
                None => None,
            },
            res: match &self.res {
                Some(v) => Some(v@),
                None => None,
            },
        }
    }
}

impl Gener {
    pub closed spec fn wf(&self) -> bool {
        match &self.floats {
            Some(f) => f.1 <= 18,
            None => true,
        }
    }

    /// A generator of `quantity` items with no materials yet.
    pub fn new(quantity: u64) -> (g: Self)
        ensures
            g.wf(),
            g@ == (GenerView { quantity, ints: None, floats: None, chars: None, res: None }),
    {
        Gener { quantity, ints: None, floats: None, chars: None, res: None }
    }

    /// Gives the integer ranges; refused, with nothing changed, when they were
    /// given before.
    pub fn gen_i(&mut self, vi: &Vec<(i64, i64)>) -> (r: Result<(), ()>)
        requires
            old(self).wf(),
        ensures
            final(self).wf(),
            old(self)@.ints is Some ==> r is Err && final(self)@ == old(self)@,
            old(self)@.ints is None ==> r is Ok && final(self)@ == (GenerView {
                ints: Some(vi@),
                ..old(self)@
            }),
    {
        if self.ints.is_some() {
            return Err(());
        }
        self.ints = Some(copy_ranges(vi));
        Ok(())
    }

    /// Gives the float ranges, as counts of `10^-digits`; refused, with
    /// nothing changed, when they were given before.
    pub fn gen_f(&mut self, vf: &Vec<(i64, i64)>, digits: u32) -> (r: Result<(), ()>)
        requires
            old(self).wf(),
            digits <= 18,
        ensures
            final(self).wf(),
            old(self)@.floats is Some ==> r is Err && final(self)@ == old(self)@,
            old(self)@.floats is None ==> r is Ok && final(self)@ == (GenerView {
                floats: Some((vf@, digits as nat)),
                ..old(self)@
            }),
    {
        if self.floats.is_some() {
            return Err(());
        }
        self.floats = Some((copy_ranges(vf), digits));
        Ok(())
    }

    /// Gives the characters; refused, with nothing changed, when they were
    /// given before.
    pub fn gen_s(&mut self, ss: &Vec<char>) -> (r: Result<(), ()>)
        requires
            old(self).wf(),
        ensures
            final(self).wf(),
            old(self)@.chars is Some ==> r is Err && final(self)@ == old(self)@,
            old(self)@.chars is None ==> r is Ok && final(self)@ == (GenerView {
                chars: Some(ss@),
                ..old(self)@
            }),
    {
        if self.chars.is_some() {
            return Err(());
        }
        self.chars = Some(ss.clone());
        Ok(())
    }

    /// Draws the items from the materials given, once: a later call keeps
    /// the items drawn first. `false`, with nothing drawn, when the items
    /// cannot be drawn.
    pub fn res(&mut self) -> (r: bool)
        requires
            old(self).wf(),
        ensures
            final(self).wf(),
            old(self)@.res is Some ==> r && final(self)@ == old(self)@,
            old(self)@.res is None ==> {
                let m = gener_materials(old(self)@);
                &&& r == items_drawable(old(self)@.quantity, m)
                &&& !r ==> final(self)@ == old(self)@
                &&& r ==> final(self)@ == (GenerView {
                    res: final(self)@.res,
                    ..old(self)@
                }) && final(self)@.res is Some && final(self)@.res->0.len() == item_count(
                    old(self)@.quantity,
                    m,
                ) && (forall|i: int|
                    0 <= i < final(self)@.res->0.len() ==> item_fits(
                        #[trigger] final(self)@.res->0[i]@,
                        m,
                    )) && (exists|pool: Seq<Vec<char>>|
                    #[trigger] pool_of(pool, old(self)@.quantity, m)
                        && final(self)@.res->0.to_multiset().subset_of(pool.to_multiset()))
            },
    {
        if self.res.is_some() {
            return true;
        }
        let empty_i: Vec<(i64, i64)> = Vec::new();
        let empty_c: Vec<char> = Vec::new();
        let ints = match &self.ints {
            Some(v) => v,
            None => &empty_i,
        };
        let (floats, digits) = match &self.floats {
            Some(f) => (&f.0, f.1),
            None => (&empty_i, 0u32),
        };
        let chars = match &self.chars {
            Some(v) => v,
            None => &empty_c,
        };
        assert(Materials { ints: ints@, floats: floats@, digits: digits as nat, chars: chars@ }
            == gener_materials(self@));
        match gen_items(ints, floats, digits, chars, self.quantity) {
            Some(items) => {
                self.res = Some(items);
                true
            },
            None => false,
        }
    }

    /// The items drawn, none before the first draw.
    pub fn items(&self) -> (r: Option<&Vec<Vec<char>>>)
        ensures
            r is Some <==> self@.res is Some,
            r matches Some(v) ==> v@ == self@.res->0,
    {
        match &self.res {
            Some(v) => Some(v),
            None => None,
        }
    }
}

} // verus!
