//! What joining an integer range does to ordered, apart ranges: the sweep
//! over the sorted endpoints builds the union of the ranges.
use vstd::prelude::*;
use vstd::relations::*;
use vstd::seq_lib::*;
use vstd::multiset::*;
use crate::variable::{
    Endpoint,
    canonical,
    covered,
    deleted,
    law_del_int_range,
    endpoint_leq,
    endpoint_order,
    endpoints,
    joined,
    sweep,
    sweep_step,
    lemma_covered_concat,
    lemma_endpoint_order_total,
};

verus! {

/// A sweep over `events` from the state `st`.
pub open spec fn sweep_from(st: (i64, int, Seq<(i64, i64)>), events: Seq<Endpoint>) -> (
    i64,
    int,
    Seq<(i64, i64)>,
)
    decreases events.len(),
{
    if events.len() == 0 {
        st
    } else {
        sweep_step(sweep_from(st, events.drop_last()), events.last())
    }
}

proof fn lemma_sweep_from_start(events: Seq<Endpoint>)
    ensures
        sweep(events) == sweep_from((0i64, 0int, Seq::<(i64, i64)>::empty()), events),
    decreases events.len(),
{
    if events.len() > 0 {
        lemma_sweep_from_start(events.drop_last());
    }
}

proof fn lemma_sweep_from_concat(
    st: (i64, int, Seq<(i64, i64)>),
    a: Seq<Endpoint>,
    b: Seq<Endpoint>,
)
    ensures
        sweep_from(st, a + b) == sweep_from(sweep_from(st, a), b),
    decreases b.len(),
{
    if b.len() == 0 {
        assert(a + b =~= a);
    } else {
        lemma_sweep_from_concat(st, a, b.drop_last());
        assert((a + b).drop_last() =~= a + b.drop_last());
        assert((a + b).last() == b.last());
    }
}

proof fn lemma_sweep_two(st: (i64, int, Seq<(i64, i64)>), x: Endpoint, y: Endpoint)
    ensures
        sweep_from(st, seq![x]) == sweep_step(st, x),
        sweep_from(st, seq![x, y]) == sweep_step(sweep_step(st, x), y),
{
    assert(seq![x].drop_last() =~= Seq::<Endpoint>::empty());
    assert(seq![x, y].drop_last() =~= seq![x]);
    assert(sweep_from(st, Seq::<Endpoint>::empty()) == st);
    assert(sweep_from(st, seq![x]) == sweep_step(st, x));
}

proof fn lemma_endpoints_one(i: (i64, i64))
    ensures
        endpoints(seq![i]) == seq![(i.0, false), (i.1, true)],
{
    assert(seq![i].drop_last() =~= Seq::<(i64, i64)>::empty());
    assert(endpoints(Seq::<(i64, i64)>::empty()) == Seq::<Endpoint>::empty());
    assert(Seq::<Endpoint>::empty() + seq![(i.0, false), (i.1, true)] =~= seq![
        (i.0, false),
        (i.1, true),
    ]);
}

proof fn lemma_endpoints_concat(a: Seq<(i64, i64)>, b: Seq<(i64, i64)>)
    ensures
        endpoints(a + b) == endpoints(a) + endpoints(b),
    decreases b.len(),
{
    if b.len() == 0 {
        assert(a + b =~= a);
        assert(endpoints(a) + endpoints(b) =~= endpoints(a));
    } else {
        lemma_endpoints_concat(a, b.drop_last());
        assert((a + b).drop_last() =~= a + b.drop_last());
        assert((a + b).last() == b.last());
        let l = b.last();
        assert(endpoints(a) + endpoints(b) =~= endpoints(a) + endpoints(b.drop_last()) + seq![
            (l.0, false),
            (l.1, true),
        ]);
    }
}

/// From no range open, the endpoints of ranges that are apart build the
/// ranges themselves.
proof fn lemma_sweep_runs(out: Seq<(i64, i64)>, k: Seq<(i64, i64)>)
    requires
        forall|i: int| 0 <= i < k.len() ==> (#[trigger] k[i]).0 <= k[i].1,
    ensures
        sweep_from((0i64, 0int, out), endpoints(k)) == (0i64, 0int, out + k),
    decreases k.len(),
{
    if k.len() == 0 {
        assert(out + k =~= out);
    } else {
        let k1 = k.drop_last();
        let l = k.last();
        assert(l == k[k.len() - 1]);
        lemma_sweep_runs(out, k1);
        lemma_sweep_from_concat(
            (0i64, 0int, out),
            endpoints(k1),
            seq![(l.0, false), (l.1, true)],
        );
        lemma_sweep_two((0i64, 0int, out + k1), (l.0, false), (l.1, true));
        assert(out + k =~= (out + k1).push(l));
    }
}

/// While a range stays open, endpoints of further ranges change nothing but
/// the count on the way.
proof fn lemma_sweep_inside(s: i64, c: int, out: Seq<(i64, i64)>, k: Seq<(i64, i64)>)
    requires
        c >= 1,
    ensures
        sweep_from((s, c, out), endpoints(k)) == (s, c, out),
    decreases k.len(),
{
    if k.len() > 0 {
        let k1 = k.drop_last();
        let l = k.last();
        lemma_sweep_inside(s, c, out, k1);
        lemma_sweep_from_concat((s, c, out), endpoints(k1), seq![(l.0, false), (l.1, true)]);
        lemma_sweep_two((s, c, out), (l.0, false), (l.1, true));
    }
}

proof fn lemma_sorted_concat(a: Seq<Endpoint>, b: Seq<Endpoint>)
    requires
        sorted_by(a, endpoint_order()),
        sorted_by(b, endpoint_order()),
        forall|i: int, j: int|
            0 <= i < a.len() && 0 <= j < b.len() ==> endpoint_leq(#[trigger] a[i], #[trigger] b[j]),
    ensures
        sorted_by(a + b, endpoint_order()),
{
    let c = a + b;
    assert forall|i: int, j: int| 0 <= i < j < c.len() implies #[trigger] endpoint_order()(
        c[i],
        c[j],
    ) by {
        if j < a.len() {
            assert(endpoint_order()(a[i], a[j]));
        } else if i >= a.len() {
            assert(endpoint_order()(b[i - a.len()], b[j - a.len()]));
        } else {
            assert(endpoint_leq(a[i], b[j - a.len()]));
        }
    }
}

/// The endpoints of ordered, apart ranges are sorted, and lie between the
/// first low end and the last high end.
proof fn lemma_endpoints_sorted(k: Seq<(i64, i64)>)
    requires
        canonical(k),
    ensures
        sorted_by(endpoints(k), endpoint_order()),
        endpoints(k).len() == 2 * k.len(),
        k.len() > 0 ==> forall|i: int|
            0 <= i < endpoints(k).len() ==> k[0].0 <= (#[trigger] endpoints(k)[i]).0 <= k.last().1,
    decreases k.len(),
{
    if k.len() > 0 {
        let k1 = k.drop_last();
        let l = k.last();
        assert(l == k[k.len() - 1]);
        assert(canonical(k1)) by {
            assert forall|i: int| 0 <= i < k1.len() implies (#[trigger] k1[i]).0 <= k1[i].1 by {
                assert(k1[i] == k[i]);
            }
            assert forall|i: int, j: int| 0 <= i < j < k1.len() implies (#[trigger] k1[i]).1 < (
            #[trigger] k1[j]).0 by {
                assert(k1[i] == k[i] && k1[j] == k[j]);
            }
        }
        lemma_endpoints_sorted(k1);
        let e1 = endpoints(k1);
        let tail = seq![(l.0, false), (l.1, true)];
        if k1.len() > 0 {
            assert(k1.last() == k[k.len() - 2]);
            assert(k1[0] == k[0]);
        }
        assert forall|i: int, j: int| 0 <= i < e1.len() && 0 <= j < tail.len() implies endpoint_leq(
            #[trigger] e1[i],
            #[trigger] tail[j],
        ) by {
            assert(k1.len() > 0);
            assert(e1[i].0 <= k1.last().1);
        }
        assert(sorted_by(tail, endpoint_order()));
        lemma_sorted_concat(e1, tail);
        assert(endpoints(k) == e1 + tail);
        assert forall|i: int| 0 <= i < endpoints(k).len() implies k[0].0 <= (
        #[trigger] endpoints(k)[i]).0 <= k.last().1 by {
            if i < e1.len() {
                assert(endpoints(k)[i] == e1[i]);
                assert(k1.len() > 0);
                assert(k1.last().1 < l.0);
            } else {
                assert(endpoints(k)[i] == tail[i - e1.len()]);
                assert(k[0].0 <= k[0].1);
                if k.len() > 1 {
                    assert(k[0].1 < l.0);
                }
            }
        }
    }
}

/// Whether the range `i` meets the range `r`: they share an integer.
pub open spec fn meets(i: (i64, i64), r: (i64, i64)) -> bool {
    i.0 <= r.1 && r.0 <= i.1
}

/// The number of leading ranges that end below `v`.
pub open spec fn count_below(s: Seq<(i64, i64)>, v: int) -> nat
    decreases s.len(),
{
    if s.len() > 0 && s[0].1 < v {
        1 + count_below(s.drop_first(), v)
    } else {
        0
    }
}

/// The number of leading ranges that start at or below `v`.
pub open spec fn count_reaching(s: Seq<(i64, i64)>, v: int) -> nat
    decreases s.len(),
{
    if s.len() > 0 && s[0].0 <= v {
        1 + count_reaching(s.drop_first(), v)
    } else {
        0
    }
}

proof fn lemma_count_below(s: Seq<(i64, i64)>, v: int)
    ensures
        count_below(s, v) <= s.len(),
        forall|i: int| 0 <= i < count_below(s, v) ==> (#[trigger] s[i]).1 < v,
        count_below(s, v) < s.len() ==> s[count_below(s, v) as int].1 >= v,
    decreases s.len(),
{
    if s.len() > 0 && s[0].1 < v {
        lemma_count_below(s.drop_first(), v);
        assert forall|i: int| 0 <= i < count_below(s, v) implies (#[trigger] s[i]).1 < v by {
            if i > 0 {
                assert(s[i] == s.drop_first()[i - 1]);
            }
        }
    }
}

proof fn lemma_count_reaching(s: Seq<(i64, i64)>, v: int)
    ensures
        count_reaching(s, v) <= s.len(),
        forall|i: int| 0 <= i < count_reaching(s, v) ==> (#[trigger] s[i]).0 <= v,
        count_reaching(s, v) < s.len() ==> s[count_reaching(s, v) as int].0 > v,
    decreases s.len(),
{
    if s.len() > 0 && s[0].0 <= v {
        lemma_count_reaching(s.drop_first(), v);
        assert forall|i: int| 0 <= i < count_reaching(s, v) implies (#[trigger] s[i]).0 <= v by {
            if i > 0 {
                assert(s[i] == s.drop_first()[i - 1]);
            }
        }
    }
}

/// Ordered, apart ranges fall in three parts around `r`: those below it,
/// those that meet it, and those above it.
proof fn lemma_split(ranges: Seq<(i64, i64)>, r: (i64, i64)) -> (ab: (int, int))
    requires
        canonical(ranges),
        r.0 <= r.1,
    ensures
        0 <= ab.0 <= ab.1 <= ranges.len(),
        forall|i: int| 0 <= i < ab.0 ==> (#[trigger] ranges[i]).1 < r.0,
        forall|i: int| ab.0 <= i < ab.1 ==> meets(#[trigger] ranges[i], r),
        forall|i: int| ab.1 <= i < ranges.len() ==> (#[trigger] ranges[i]).0 > r.1,
{
    let a = count_below(ranges, r.0 as int) as int;
    lemma_count_below(ranges, r.0 as int);
    let rest = ranges.skip(a);
    let b = a + count_reaching(rest, r.1 as int);
    lemma_count_reaching(rest, r.1 as int);
    assert forall|i: int| a <= i < ranges.len() implies (#[trigger] ranges[i]).1 >= r.0 by {
        if i > a {
            assert(ranges[a].1 < ranges[i].0);
        }
    }
    assert forall|i: int| a <= i < b implies meets(#[trigger] ranges[i], r) by {
        assert(rest[i - a] == ranges[i]);
    }
    assert forall|i: int| b <= i < ranges.len() implies (#[trigger] ranges[i]).0 > r.1 by {
        assert(rest[b - a] == ranges[b]);
        if i > b {
            assert(ranges[b].1 < ranges[i].0);
        }
    }
    (a, b)
}

proof fn lemma_canonical_subrange(k: Seq<(i64, i64)>, a: int, b: int)
    requires
        canonical(k),
        0 <= a <= b <= k.len(),
    ensures
        canonical(k.subrange(a, b)),
{
    let s = k.subrange(a, b);
    assert forall|i: int| 0 <= i < s.len() implies (#[trigger] s[i]).0 <= s[i].1 by {
        assert(s[i] == k[a + i]);
    }
    assert forall|i: int, j: int| 0 <= i < j < s.len() implies (#[trigger] s[i]).1 < (
    #[trigger] s[j]).0 by {
        assert(s[i] == k[a + i] && s[j] == k[a + j]);
    }
}

/// Sorted endpoints below `v`, then sorted endpoints from `v` on, are sorted.
proof fn lemma_sorted_apart(a: Seq<Endpoint>, b: Seq<Endpoint>, v: int)
    requires
        sorted_by(a, endpoint_order()),
        sorted_by(b, endpoint_order()),
        forall|i: int| 0 <= i < a.len() ==> (#[trigger] a[i]).0 < v,
        forall|j: int| 0 <= j < b.len() ==> (#[trigger] b[j]).0 >= v,
    ensures
        sorted_by(a + b, endpoint_order()),
{
    assert forall|i: int, j: int| 0 <= i < a.len() && 0 <= j < b.len() implies endpoint_leq(
        #[trigger] a[i],
        #[trigger] b[j],
    ) by {}
    lemma_sorted_concat(a, b);
}

/// Sorted endpoints up to `v`, then sorted closing endpoints from `v` on,
/// are sorted.
proof fn lemma_sorted_closing(a: Seq<Endpoint>, b: Seq<Endpoint>, v: int)
    requires
        sorted_by(a, endpoint_order()),
        sorted_by(b, endpoint_order()),
        forall|i: int| 0 <= i < a.len() ==> (#[trigger] a[i]).0 <= v,
        forall|j: int| 0 <= j < b.len() ==> (#[trigger] b[j]).0 >= v && b[j].1,
    ensures
        sorted_by(a + b, endpoint_order()),
{
    assert forall|i: int, j: int| 0 <= i < a.len() && 0 <= j < b.len() implies endpoint_leq(
        #[trigger] a[i],
        #[trigger] b[j],
    ) by {}
    lemma_sorted_concat(a, b);
}

/// The two opening endpoints of `r` and of the first range it meets, in order.
spec fn first_opens(r: (i64, i64), m0: (i64, i64)) -> Seq<Endpoint> {
    if r.0 <= m0.0 {
        seq![(r.0, false), (m0.0, false)]
    } else {
        seq![(m0.0, false), (r.0, false)]
    }
}

/// The two closing endpoints of `r` and of the last range it meets, in order.
spec fn last_closes(r: (i64, i64), ml: (i64, i64)) -> Seq<Endpoint> {
    if r.1 <= ml.1 {
        seq![(r.1, true), (ml.1, true)]
    } else {
        seq![(ml.1, true), (r.1, true)]
    }
}

/// The sorted endpoints of `r` and of the ranges `m` that meet it.
spec fn run_events(m: Seq<(i64, i64)>, r: (i64, i64)) -> Seq<Endpoint> {
    if m.len() == 0 {
        seq![(r.0, false), (r.1, true)]
    } else if m.len() == 1 {
        first_opens(r, m[0]) + last_closes(r, m[0])
    } else {
        first_opens(r, m[0]) + seq![(m[0].1, true)] + endpoints(m.subrange(1, m.len() - 1))
            + seq![(m.last().0, false)] + last_closes(r, m.last())
    }
}

spec fn lo_of(m: Seq<(i64, i64)>, r: (i64, i64)) -> int {
    if m.len() == 0 || r.0 <= m[0].0 {
        r.0 as int
    } else {
        m[0].0 as int
    }
}

spec fn hi_of(m: Seq<(i64, i64)>, r: (i64, i64)) -> int {
    if m.len() == 0 || r.1 >= m.last().1 {
        r.1 as int
    } else {
        m.last().1 as int
    }
}

proof fn lemma_run_events_sorted(m: Seq<(i64, i64)>, r: (i64, i64))
    requires
        canonical(m),
        r.0 <= r.1,
        forall|i: int| 0 <= i < m.len() ==> meets(#[trigger] m[i], r),
    ensures
        sorted_by(run_events(m, r), endpoint_order()),
        forall|i: int|
            0 <= i < run_events(m, r).len() ==> lo_of(m, r) <= (#[trigger] run_events(m, r)[i]).0
                <= hi_of(m, r),
{
    let x = run_events(m, r);
    if m.len() == 0 {
        assert(sorted_by(x, endpoint_order()));
    } else {
        let m0 = m[0];
        let ml = m.last();
        assert(ml == m[m.len() - 1]);
        assert(meets(m0, r) && meets(ml, r));
        let fo = first_opens(r, m0);
        let lc = last_closes(r, ml);
        assert(sorted_by(fo, endpoint_order()));
        assert(sorted_by(lc, endpoint_order()));
        if m.len() == 1 {
            lemma_sorted_closing(fo, lc, if r.0 <= m0.0 { m0.0 as int } else { r.0 as int });
        } else {
            let mid = m.subrange(1, m.len() - 1);
            lemma_canonical_subrange(m, 1, m.len() - 1);
            lemma_endpoints_sorted(mid);
            let em = endpoints(mid);
            let c0 = seq![(m0.1, true)];
            let o1 = seq![(ml.0, false)];
            assert(sorted_by(c0, endpoint_order()));
            assert(sorted_by(o1, endpoint_order()));
            assert(m0.1 < ml.0);
            lemma_sorted_closing(fo, c0, m0.1 as int);
            let a1 = fo + c0;
            assert forall|i: int| 0 <= i < a1.len() implies (#[trigger] a1[i]).0 <= m0.1 by {}
            if mid.len() > 0 {
                assert(mid[0] == m[1]);
                assert(mid.last() == m[m.len() - 2]);
                assert(m0.1 < m[1].0);
                assert(m[m.len() - 2].1 < ml.0);
            }
            lemma_sorted_apart(a1, em, m0.1 + 1);
            let a2 = a1 + em;
            assert forall|i: int| 0 <= i < a2.len() implies (#[trigger] a2[i]).0 < ml.0 by {
                if i >= a1.len() {
                    assert(a2[i] == em[i - a1.len()]);
                }
            }
            lemma_sorted_apart(a2, o1, ml.0 as int);
            let a3 = a2 + o1;
            assert forall|i: int| 0 <= i < a3.len() implies (#[trigger] a3[i]).0 <= ml.0 by {
                if i < a2.len() {
                    assert(a3[i] == a2[i]);
                }
            }
            lemma_sorted_closing(a3, lc, ml.0 as int);
            assert(x == a3 + lc);
            assert forall|i: int| 0 <= i < x.len() implies lo_of(m, r) <= (#[trigger] x[i]).0
                <= hi_of(m, r) by {
                if i < a1.len() {
                    assert(x[i] == a1[i]);
                } else if i < a2.len() {
                    assert(x[i] == em[i - a1.len()]);
                    assert(m0.0 <= m0.1);
                    assert(ml.0 <= ml.1);
                } else if i < a3.len() {
                    assert(x[i] == o1[i - a2.len()]);
                } else {
                    assert(x[i] == lc[i - a3.len()]);
                }
            }
        }
    }
}

proof fn lemma_to_multiset_two(x: Endpoint, y: Endpoint)
    ensures
        seq![x, y].to_multiset() =~= Multiset::singleton(x).add(Multiset::singleton(y)),
{
    broadcast use group_to_multiset_ensures;

    assert(seq![x, y] =~= Seq::<Endpoint>::empty().push(x).push(y));
    assert(Seq::<Endpoint>::empty().to_multiset() =~= Multiset::<Endpoint>::empty());
}

/// The events of the run hold the endpoints of `r` and of the ranges it meets.
proof fn lemma_run_events_multiset(m: Seq<(i64, i64)>, r: (i64, i64))
    ensures
        run_events(m, r).to_multiset() =~= endpoints(m).to_multiset().add(
            seq![(r.0, false), (r.1, true)].to_multiset(),
        ),
{
    broadcast use group_to_multiset_ensures;
    broadcast use lemma_multiset_commutative;

    let rf = (r.0, false);
    let rt = (r.1, true);
    lemma_to_multiset_two(rf, rt);
    if m.len() == 0 {
        assert(endpoints(m) =~= Seq::<Endpoint>::empty());
        assert(Seq::<Endpoint>::empty().to_multiset() =~= Multiset::<Endpoint>::empty());
    } else {
        let m0 = m[0];
        let ml = m.last();
        lemma_to_multiset_two((m0.0, false), (r.0, false));
        lemma_to_multiset_two((r.0, false), (m0.0, false));
        lemma_to_multiset_two((ml.1, true), (r.1, true));
        lemma_to_multiset_two((r.1, true), (ml.1, true));
        let fo = first_opens(r, m0);
        let lc = last_closes(r, ml);
        if m.len() == 1 {
            assert(m =~= seq![m0]);
            lemma_endpoints_one(m0);
            lemma_to_multiset_two((m0.0, false), (m0.1, true));
            assert((fo + lc).to_multiset() =~= fo.to_multiset().add(lc.to_multiset()));
        } else {
            let mid = m.subrange(1, m.len() - 1);
            assert(m =~= seq![m0] + mid + seq![ml]);
            lemma_endpoints_concat(seq![m0] + mid, seq![ml]);
            lemma_endpoints_concat(seq![m0], mid);
            lemma_endpoints_one(m0);
            lemma_endpoints_one(ml);
            lemma_to_multiset_two((m0.0, false), (m0.1, true));
            lemma_to_multiset_two((ml.0, false), (ml.1, true));
            let em = endpoints(mid);
            let c0 = seq![(m0.1, true)];
            let o1 = seq![(ml.0, false)];
            assert(c0.to_multiset() =~= Multiset::singleton((m0.1, true))) by {
                assert(c0 =~= Seq::<Endpoint>::empty().push((m0.1, true)));
                assert(Seq::<Endpoint>::empty().to_multiset() =~= Multiset::<Endpoint>::empty());
            }
            assert(o1.to_multiset() =~= Multiset::singleton((ml.0, false))) by {
                assert(o1 =~= Seq::<Endpoint>::empty().push((ml.0, false)));
                assert(Seq::<Endpoint>::empty().to_multiset() =~= Multiset::<Endpoint>::empty());
            }
            let x = fo + c0 + em + o1 + lc;
            assert(x.to_multiset() =~= fo.to_multiset().add(c0.to_multiset()).add(
                em.to_multiset(),
            ).add(o1.to_multiset()).add(lc.to_multiset()));
            let e = seq![(m0.0, false), (m0.1, true)] + em + seq![(ml.0, false), (ml.1, true)];
            assert(endpoints(m) == e);
            assert(e.to_multiset() =~= seq![(m0.0, false), (m0.1, true)].to_multiset().add(
                em.to_multiset(),
            ).add(seq![(ml.0, false), (ml.1, true)].to_multiset()));
        }
    }
}

/// From no range open, the events of the run build the one range from the
/// run's low end to its high end.
proof fn lemma_run_events_sweep(out: Seq<(i64, i64)>, m: Seq<(i64, i64)>, r: (i64, i64))
    requires
        canonical(m),
        r.0 <= r.1,
        forall|i: int| 0 <= i < m.len() ==> meets(#[trigger] m[i], r),
    ensures
        sweep_from((0i64, 0int, out), run_events(m, r)) == (
            0i64,
            0int,
            out.push((lo_of(m, r) as i64, hi_of(m, r) as i64)),
        ),
{
    let st = (0i64, 0int, out);
    let lo = lo_of(m, r);
    let hi = hi_of(m, r);
    if m.len() == 0 {
        lemma_sweep_two(st, (r.0, false), (r.1, true));
    } else {
        let m0 = m[0];
        let ml = m.last();
        assert(ml == m[m.len() - 1]);
        assert(meets(m0, r) && meets(ml, r));
        let fo = first_opens(r, m0);
        let lc = last_closes(r, ml);
        lemma_sweep_two(st, fo[0], fo[1]);
        assert(fo =~= seq![fo[0], fo[1]]);
        assert(lc =~= seq![lc[0], lc[1]]);
        if m.len() == 1 {
            assert(ml == m0);
            let s2 = sweep_from(st, fo);
            assert(s2 == (lo as i64, 2int, out));
            lemma_sweep_two(s2, lc[0], lc[1]);
            lemma_sweep_from_concat(st, fo, lc);
        } else {
            assert(m0.1 < ml.0);
            let mid = m.subrange(1, m.len() - 1);
            let em = endpoints(mid);
            let c0 = seq![(m0.1, true)];
            let o1 = seq![(ml.0, false)];
            let s2 = sweep_from(st, fo);
            assert(s2 == (lo as i64, 2int, out));
            lemma_sweep_two(s2, (m0.1, true), (m0.1, true));
            lemma_sweep_from_concat(st, fo, c0);
            let s3 = (lo as i64, 1int, out);
            assert(sweep_from(st, fo + c0) == s3);
            lemma_sweep_inside(lo as i64, 1, out, mid);
            lemma_sweep_from_concat(st, fo + c0, em);
            lemma_sweep_two(s3, (ml.0, false), (ml.0, false));
            lemma_sweep_from_concat(st, fo + c0 + em, o1);
            let s4 = (lo as i64, 2int, out);
            assert(sweep_from(st, fo + c0 + em + o1) == s4);
            lemma_sweep_two(s4, lc[0], lc[1]);
            lemma_sweep_from_concat(st, fo + c0 + em + o1, lc);
        }
    }
}

/// The ranges below `r`, the one run of `r` with the ranges that meet it,
/// and the ranges above `r` are ordered and apart, and hold what the ranges
/// and `r` hold.
proof fn lemma_three_parts(
    ranges: Seq<(i64, i64)>,
    r: (i64, i64),
    a: int,
    b: int,
)
    requires
        canonical(ranges),
        r.0 <= r.1,
        0 <= a <= b <= ranges.len(),
        forall|i: int| 0 <= i < a ==> (#[trigger] ranges[i]).1 < r.0,
        forall|i: int| a <= i < b ==> meets(#[trigger] ranges[i], r),
        forall|i: int| b <= i < ranges.len() ==> (#[trigger] ranges[i]).0 > r.1,
    ensures
        ({
            let m = ranges.subrange(a, b);
            let out = ranges.subrange(0, a) + seq![(lo_of(m, r) as i64, hi_of(m, r) as i64)]
                + ranges.subrange(b, ranges.len() as int);
            &&& canonical(out)
            &&& forall|x: int| covered(out, x) == (covered(ranges, x) || r.0 <= x <= r.1)
        }),
{
    let l = ranges.subrange(0, a);
    let m = ranges.subrange(a, b);
    let rr = ranges.subrange(b, ranges.len() as int);
    let lo = lo_of(m, r);
    let hi = hi_of(m, r);
    let run = seq![(lo as i64, hi as i64)];
    let out = l + run + rr;
    assert(ranges =~= l + m + rr);
    if m.len() > 0 {
        assert(m[0] == ranges[a]);
        assert(m.last() == ranges[b - 1]);
        assert(meets(ranges[a], r) && meets(ranges[b - 1], r));
    }
    assert(lo <= r.0 <= r.1 <= hi);
    assert forall|i: int| 0 <= i < l.len() implies (#[trigger] l[i]).1 < lo by {
        assert(l[i] == ranges[i]);
        if m.len() > 0 {
            assert(ranges[i].1 < ranges[a].0);
        }
    }
    assert forall|j: int| 0 <= j < rr.len() implies (#[trigger] rr[j]).0 > hi by {
        assert(rr[j] == ranges[b + j]);
        if m.len() > 0 && b - 1 < b + j {
            assert(ranges[b - 1].1 < ranges[b + j].0);
        }
    }
    assert forall|i: int| 0 <= i < out.len() implies (#[trigger] out[i]).0 <= out[i].1 by {
        if i < l.len() {
            assert(out[i] == ranges[i]);
        } else if i == l.len() {
            assert(out[i] == (lo as i64, hi as i64));
        } else {
            assert(out[i] == ranges[b + i - l.len() - 1]);
        }
    }
    assert forall|i: int, j: int| 0 <= i < j < out.len() implies (#[trigger] out[i]).1 < (
    #[trigger] out[j]).0 by {
        if j < l.len() {
            assert(out[i] == ranges[i] && out[j] == ranges[j]);
        } else if j == l.len() {
            assert(out[i] == l[i]);
        } else if i > l.len() {
            assert(out[i] == ranges[b + i - l.len() - 1]);
            assert(out[j] == ranges[b + j - l.len() - 1]);
        } else if i == l.len() {
            assert(out[j] == rr[j - l.len() - 1]);
        } else {
            assert(out[i] == l[i]);
            assert(out[j] == rr[j - l.len() - 1]);
        }
    }
    assert forall|x: int| covered(out, x) == (covered(ranges, x) || r.0 <= x <= r.1) by {
        lemma_covered_concat(l + run, rr, x);
        lemma_covered_concat(l, run, x);
        lemma_covered_concat(l + m, rr, x);
        lemma_covered_concat(l, m, x);
        assert(covered(run, x) == (lo <= x <= hi)) by {
            if lo <= x <= hi {
                assert(run[0] == (lo as i64, hi as i64));
            }
        }
        if covered(m, x) {
            let i = choose|i: int| 0 <= i < m.len() && (#[trigger] m[i]).0 <= x <= m[i].1;
            assert(m[i] == ranges[a + i]);
            if i > 0 {
                assert(ranges[a].1 < ranges[a + i].0);
                assert(ranges[a].0 <= ranges[a].1);
            }
            if i < m.len() - 1 {
                assert(ranges[a + i].1 < ranges[b - 1].0);
                assert(ranges[b - 1].0 <= ranges[b - 1].1);
            }
        }
        if lo <= x <= hi && !(r.0 <= x <= r.1) {
            if x < r.0 {
                assert(m[0].0 <= x <= m[0].1);
            } else {
                assert(m[m.len() - 1].0 <= x <= m[m.len() - 1].1);
            }
        }
    }
}

/// The endpoints of the ranges below `r`, then those of the run, then those
/// of the ranges above `r`.
spec fn split_events(ranges: Seq<(i64, i64)>, r: (i64, i64), a: int, b: int) -> Seq<Endpoint> {
    endpoints(ranges.subrange(0, a)) + run_events(ranges.subrange(a, b), r) + endpoints(
        ranges.subrange(b, ranges.len() as int),
    )
}

proof fn lemma_split_sorted(ranges: Seq<(i64, i64)>, r: (i64, i64), a: int, b: int)
    requires
        canonical(ranges),
        r.0 <= r.1,
        0 <= a <= b <= ranges.len(),
        forall|i: int| 0 <= i < a ==> (#[trigger] ranges[i]).1 < r.0,
        forall|i: int| a <= i < b ==> meets(#[trigger] ranges[i], r),
        forall|i: int| b <= i < ranges.len() ==> (#[trigger] ranges[i]).0 > r.1,
    ensures
        sorted_by(split_events(ranges, r, a, b), endpoint_order()),
{
    let l = ranges.subrange(0, a);
    let m = ranges.subrange(a, b);
    let rr = ranges.subrange(b, ranges.len() as int);
    lemma_canonical_subrange(ranges, 0, a);
    lemma_canonical_subrange(ranges, a, b);
    lemma_canonical_subrange(ranges, b, ranges.len() as int);
    assert forall|i: int| 0 <= i < m.len() implies meets(#[trigger] m[i], r) by {
        assert(m[i] == ranges[a + i]);
    }
    let lo = lo_of(m, r);
    let hi = hi_of(m, r);
    let el = endpoints(l);
    let x = run_events(m, r);
    let er = endpoints(rr);
    lemma_endpoints_sorted(l);
    lemma_endpoints_sorted(rr);
    lemma_run_events_sorted(m, r);
    if m.len() > 0 {
        assert(m[0] == ranges[a]);
        assert(m.last() == ranges[b - 1]);
        assert(meets(ranges[a], r) && meets(ranges[b - 1], r));
    }
    assert(lo <= r.0 <= r.1 <= hi);
    if l.len() > 0 {
        assert(l.last() == ranges[a - 1]);
        if m.len() > 0 {
            assert(ranges[a - 1].1 < ranges[a].0);
        }
    }
    lemma_sorted_apart(el, x, lo);
    if rr.len() > 0 {
        assert(rr[0] == ranges[b]);
        if m.len() > 0 {
            assert(ranges[b - 1].1 < ranges[b].0);
        }
    }
    assert forall|i: int| 0 <= i < (el + x).len() implies (#[trigger] (el + x)[i]).0 < hi + 1 by {
        if i < el.len() {
            assert((el + x)[i] == el[i]);
        } else {
            assert((el + x)[i] == x[i - el.len()]);
        }
    }
    lemma_sorted_apart(el + x, er, hi + 1);
}

proof fn lemma_split_multiset(ranges: Seq<(i64, i64)>, r: (i64, i64), a: int, b: int)
    requires
        0 <= a <= b <= ranges.len(),
    ensures
        split_events(ranges, r, a, b).to_multiset() =~= endpoints(ranges.push(r)).to_multiset(),
{
    broadcast use lemma_multiset_commutative;

    let l = ranges.subrange(0, a);
    let m = ranges.subrange(a, b);
    let rr = ranges.subrange(b, ranges.len() as int);
    let el = endpoints(l);
    let em = endpoints(m);
    let er = endpoints(rr);
    let x = run_events(m, r);
    let rs = seq![(r.0, false), (r.1, true)];
    let all = ranges.push(r);
    assert(all =~= l + m + rr + seq![r]);
    lemma_endpoints_concat(l + m + rr, seq![r]);
    lemma_endpoints_concat(l + m, rr);
    lemma_endpoints_concat(l, m);
    lemma_endpoints_one(r);
    lemma_run_events_multiset(m, r);
    assert(endpoints(all) == el + em + er + rs);
    let ms_all = endpoints(all).to_multiset();
    assert(ms_all =~= (el + em + er).to_multiset().add(rs.to_multiset()));
    assert((el + em + er).to_multiset() =~= (el + em).to_multiset().add(er.to_multiset()));
    assert((el + em).to_multiset() =~= el.to_multiset().add(em.to_multiset()));
    let t = el + x + er;
    assert(t.to_multiset() =~= (el + x).to_multiset().add(er.to_multiset()));
    assert((el + x).to_multiset() =~= el.to_multiset().add(x.to_multiset()));
}

proof fn lemma_split_sweep(ranges: Seq<(i64, i64)>, r: (i64, i64), a: int, b: int)
    requires
        canonical(ranges),
        r.0 <= r.1,
        0 <= a <= b <= ranges.len(),
        forall|i: int| 0 <= i < a ==> (#[trigger] ranges[i]).1 < r.0,
        forall|i: int| a <= i < b ==> meets(#[trigger] ranges[i], r),
        forall|i: int| b <= i < ranges.len() ==> (#[trigger] ranges[i]).0 > r.1,
    ensures
        ({
            let m = ranges.subrange(a, b);
            sweep(split_events(ranges, r, a, b)).2 == ranges.subrange(0, a) + seq![
                (lo_of(m, r) as i64, hi_of(m, r) as i64),
            ] + ranges.subrange(b, ranges.len() as int)
        }),
{
    let l = ranges.subrange(0, a);
    let m = ranges.subrange(a, b);
    let rr = ranges.subrange(b, ranges.len() as int);
    lemma_canonical_subrange(ranges, a, b);
    assert forall|i: int| 0 <= i < m.len() implies meets(#[trigger] m[i], r) by {
        assert(m[i] == ranges[a + i]);
    }
    let lo = lo_of(m, r);
    let hi = hi_of(m, r);
    let el = endpoints(l);
    let x = run_events(m, r);
    let er = endpoints(rr);
    let t = el + x + er;
    assert forall|i: int| 0 <= i < l.len() implies (#[trigger] l[i]).0 <= l[i].1 by {
        assert(l[i] == ranges[i]);
    }
    assert forall|i: int| 0 <= i < rr.len() implies (#[trigger] rr[i]).0 <= rr[i].1 by {
        assert(rr[i] == ranges[b + i]);
    }
    let empty = Seq::<(i64, i64)>::empty();
    lemma_sweep_from_start(t);
    lemma_sweep_from_concat((0i64, 0int, empty), el + x, er);
    lemma_sweep_from_concat((0i64, 0int, empty), el, x);
    lemma_sweep_runs(empty, l);
    assert(empty + l =~= l);
    lemma_run_events_sweep(l, m, r);
    lemma_sweep_runs(l.push((lo as i64, hi as i64)), rr);
    assert(l.push((lo as i64, hi as i64)) + rr =~= l + seq![(lo as i64, hi as i64)] + rr);
}

/// Joining a non-empty range to ordered, apart ranges gives ordered, apart
/// ranges that hold exactly the integers of the ranges and of the new range.
pub proof fn law_join_int_range(ranges: Seq<(i64, i64)>, r: (i64, i64))
    requires
        canonical(ranges),
        r.0 <= r.1,
    ensures
        canonical(joined(ranges, r)),
        forall|x: int| covered(joined(ranges, r), x) == (covered(ranges, x) || r.0 <= x <= r.1),
{
    let (a, b) = lemma_split(ranges, r);
    let m = ranges.subrange(a, b);
    // The sorted endpoints, and the sweep over them.
    let t = split_events(ranges, r, a, b);
    let all = endpoints(ranges.push(r));
    lemma_split_sorted(ranges, r, a, b);
    lemma_split_multiset(ranges, r, a, b);
    lemma_endpoint_order_total();
    all.lemma_sort_by_ensures(endpoint_order());
    lemma_sorted_unique(t, all.sort_by(endpoint_order()), endpoint_order());
    lemma_split_sweep(ranges, r, a, b);
    lemma_three_parts(ranges, r, a, b);
}


/// Taking out a range that has just joined leaves ordered, apart ranges
/// that hold exactly what the ranges held outside it.
pub proof fn law_join_then_del_int_range(ranges: Seq<(i64, i64)>, r: (i64, i64))
    requires
        canonical(ranges),
        r.0 <= r.1,
    ensures
        canonical(deleted(joined(ranges, r), r)),
        forall|x: int|
            covered(deleted(joined(ranges, r), r), x) == (covered(ranges, x) && !(r.0 <= x
                <= r.1)),
{
    law_join_int_range(ranges, r);
    law_del_int_range(joined(ranges, r), r);
}

} // verus!
