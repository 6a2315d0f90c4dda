use vstd::prelude::*;
use crate::matcher::{pair_views, MatchedPair, PairView};
use crate::quote::MAX_PRICE;

verus! {

broadcast use vstd::seq_lib::group_to_multiset_ensures;

/// The premium of `x` is at least that of `y`, compared exactly on the price
/// ratios `price_a / price_b` (positive `price_b`), not on rounded percentages.
pub open spec fn at_least(x: PairView, y: PairView) -> bool {
    x.price_a * y.price_b >= y.price_a * x.price_b
}

/// Prices that the ranking can compare: positive reference price, both in range.
pub open spec fn comparable(p: PairView) -> bool {
    0 < p.price_b <= MAX_PRICE && p.price_a <= MAX_PRICE
}

pub open spec fn all_comparable(s: Seq<PairView>) -> bool {
    forall|i: int| 0 <= i < s.len() ==> comparable(#[trigger] s[i])
}

pub open spec fn premium_descending(s: Seq<PairView>) -> bool {
    forall|i: int, j: int| 0 <= i < j < s.len() ==> at_least(s[i], s[j])
}

/// Where pair `x` goes in `t`: before the first pair at or after `k` whose
/// premium is strictly below that of `x`, else at the end.
pub open spec fn premium_slot(t: Seq<PairView>, x: PairView, k: int) -> int
    decreases t.len() - k,
{
    if k < 0 || k >= t.len() {
        t.len() as int
    } else if !at_least(t[k], x) {
        k
    } else {
        premium_slot(t, x, k + 1)
    }
}

/// Stable sort by descending premium: each pair in turn goes after every pair
/// already placed whose premium is at least its own.
pub open spec fn ranked(s: Seq<PairView>) -> Seq<PairView>
    decreases s.len(),
{
    if s.len() == 0 {
        s
    } else {
        let t = ranked(s.drop_last());
        t.insert(premium_slot(t, s.last(), 0), s.last())
    }
}

proof fn lemma_at_least_trans(x: PairView, y: PairView, z: PairView)
    requires
        comparable(x),
        comparable(y),
        comparable(z),
        at_least(x, y),
        at_least(y, z),
    ensures
        at_least(x, z),
        !at_least(z, y) ==> !at_least(z, x),
{
    let (xa, xb, ya, yb, za, zb) = (
        x.price_a as int,
        x.price_b as int,
        y.price_a as int,
        y.price_b as int,
        z.price_a as int,
        z.price_b as int,
    );
    assert(xa * zb >= za * xb) by (nonlinear_arith)
        requires xa * yb >= ya * xb, ya * zb >= za * yb, xb > 0, yb > 0, zb > 0, xa >= 0,
            za >= 0, ya >= 0;
    if !(za * yb >= ya * zb) {
        assert(!(za * xb >= xa * zb)) by (nonlinear_arith)
            requires xa * yb >= ya * xb, za * yb < ya * zb, xb > 0, yb > 0, zb > 0, xa >= 0,
                za >= 0, ya >= 0;
    }
}

fn duplicate_pair(p: &MatchedPair) -> (r: MatchedPair)
    ensures
        r@ == p@,
{
    MatchedPair {
        asset: p.asset.clone(),
        price_a: p.price_a,
        price_b: p.price_b,
        premium: p.premium,
        volume_a: p.volume_a,
        volume_b: p.volume_b,
    }
}

proof fn lemma_insert_descending(t: Seq<PairView>, x: PairView, k: int)
    requires
        0 <= k <= t.len(),
        all_comparable(t),
        comparable(x),
        premium_descending(t),
        forall|m: int| 0 <= m < k ==> at_least(t[m], x),
        k < t.len() ==> !at_least(t[k], x),
    ensures
        premium_descending(t.insert(k, x)),
        all_comparable(t.insert(k, x)),
{
    let r = t.insert(k, x);
    assert forall|a: int, b: int| 0 <= a < b < r.len() implies at_least(r[a], r[b]) by {
        if a < k && b == k {
        } else if a < k && b > k {
            assert(r[a] == t[a]);
            assert(r[b] == t[b - 1]);
        } else if a == k {
            assert(r[b] == t[b - 1]);
            assert(comparable(t[k]) && comparable(t[b - 1]));
            if b - 1 != k {
                assert(at_least(t[k], t[b - 1]));
            }
            assert(at_least(x, t[k])) by (nonlinear_arith)
                requires !at_least(t[k], x);
            lemma_at_least_trans(x, t[k], t[b - 1]);
        } else if b < k {
            assert(r[a] == t[a] && r[b] == t[b]);
        } else {
            assert(r[a] == t[a - 1] && r[b] == t[b - 1]);
        }
    }
    assert forall|i: int| 0 <= i < r.len() implies comparable(#[trigger] r[i]) by {
        if i < k {
            assert(r[i] == t[i]);
        } else if i > k {
            assert(r[i] == t[i - 1]);
        }
    }
}

fn at_least_exec(p: &MatchedPair, x: &MatchedPair) -> (r: bool)
    requires
        comparable(p@),
        comparable(x@),
    ensures
        r == at_least(p@, x@),
{
    assert(p.price_a.0 * x.price_b.0 <= u128::MAX) by (nonlinear_arith)
        requires p.price_a.0 <= MAX_PRICE, x.price_b.0 <= MAX_PRICE;
    assert(x.price_a.0 * p.price_b.0 <= u128::MAX) by (nonlinear_arith)
        requires x.price_a.0 <= MAX_PRICE, p.price_b.0 <= MAX_PRICE;
    p.price_a.0 * x.price_b.0 >= x.price_a.0 * p.price_b.0
}

/// Orders matched pairs by descending signed premium, compared exactly on the
/// price ratios; pairs of equal premium keep their order.
pub fn rank(s: Vec<MatchedPair>) -> (r: Vec<MatchedPair>)
    requires
        all_comparable(pair_views(s@)),
    ensures
        pair_views(r@) == ranked(pair_views(s@)),
        pair_views(r@).to_multiset() == pair_views(s@).to_multiset(),
        premium_descending(pair_views(r@)),
{
    let mut out: Vec<MatchedPair> = Vec::new();
    let mut i: usize = 0;
    while i < s.len()
        invariant
            i <= s@.len(),
            all_comparable(pair_views(s@)),
            all_comparable(pair_views(out@)),
            pair_views(out@) == ranked(pair_views(s@.take(i as int))),
            pair_views(out@).to_multiset() == pair_views(s@.take(i as int)).to_multiset(),
            premium_descending(pair_views(out@)),
        decreases s.len() - i,
    {
        let x = duplicate_pair(&s[i]);
        assert(comparable(pair_views(s@)[i as int]));
        assert forall|m: int| 0 <= m < out@.len() implies comparable(#[trigger] out@[m]@) by {
            assert(comparable(pair_views(out@)[m]));
        }
        let mut k: usize = 0;
        while k < out.len() && at_least_exec(&out[k], &x)
            invariant
                k <= out@.len(),
                i < s@.len(),
                x@ == s@[i as int]@,
                forall|m: int| 0 <= m < out@.len() ==> comparable(#[trigger] out@[m]@),
                comparable(x@),
                all_comparable(pair_views(out@)),
                forall|m: int| 0 <= m < k ==> at_least(out@[m]@, x@),
                premium_descending(pair_views(out@)),
                premium_slot(pair_views(out@), x@, 0) == premium_slot(
                    pair_views(out@),
                    x@,
                    k as int,
                ),
            decreases out.len() - k,
        {
            k = k + 1;
        }
        let ghost before = out@;
        out.insert(k, x);
        proof {
            assert(pair_views(out@) =~= pair_views(before).insert(k as int, x@));
            assert(s@.take(i + 1) =~= s@.take(i as int).push(s@[i as int]));
            assert(pair_views(s@.take(i + 1)) =~= pair_views(s@.take(i as int)).push(
                s@[i as int]@,
            ));
            vstd::seq_lib::to_multiset_insert(pair_views(before), k as int, x@);
            assert(pair_views(s@.take(i + 1)).drop_last() =~= pair_views(s@.take(i as int)));
            let bv = pair_views(before);
            assert forall|m: int| 0 <= m < k implies at_least(bv[m], x@) by {
                assert(bv[m] == before[m]@);
            }
            lemma_insert_descending(bv, x@, k as int);
        }
        i = i + 1;
    }
    assert(s@.take(s@.len() as int) =~= s@);
    out
}

/// Pairs whose price ratio `price_a / price_b` equals `n / d`.
pub open spec fn with_ratio(n: int, d: int) -> spec_fn(PairView) -> bool {
    |p: PairView| p.price_a * d == n * p.price_b
}

proof fn lemma_premium_slot(t: Seq<PairView>, x: PairView, k: int)
    requires
        0 <= k <= t.len(),
    ensures
        k <= premium_slot(t, x, k) <= t.len(),
        forall|m: int| k <= m < premium_slot(t, x, k) ==> at_least(t[m], x),
        premium_slot(t, x, k) < t.len() ==> !at_least(t[premium_slot(t, x, k)], x),
    decreases t.len() - k,
{
    if k < t.len() {
        lemma_premium_slot(t, x, k + 1);
    }
}

/// The ranking is ordered: along it the premium never increases, and it holds
/// as many pairs as it was given.
pub proof fn lemma_ranked_descending(s: Seq<PairView>)
    requires
        all_comparable(s),
    ensures
        ranked(s).len() == s.len(),
        premium_descending(ranked(s)),
        all_comparable(ranked(s)),
    decreases s.len(),
{
    if s.len() > 0 {
        let d = s.drop_last();
        assert(all_comparable(d)) by {
            assert forall|i: int| 0 <= i < d.len() implies comparable(#[trigger] d[i]) by {
                assert(d[i] == s[i]);
            }
        }
        assert(comparable(s[s.len() - 1]));
        lemma_ranked_descending(d);
        let t = ranked(d);
        lemma_premium_slot(t, s.last(), 0);
        lemma_insert_descending(t, s.last(), premium_slot(t, s.last(), 0));
    }
}

/// The ranking is stable: the pairs of any one premium (any one price ratio
/// `n / d`) come out in the order they went in.
pub proof fn lemma_rank_stable(s: Seq<PairView>, n: int, d: int)
    requires
        all_comparable(s),
        d > 0,
    ensures
        ranked(s).filter(with_ratio(n, d)) == s.filter(with_ratio(n, d)),
    decreases s.len(),
{
    if s.len() > 0 {
        let pred = with_ratio(n, d);
        let ds = s.drop_last();
        assert(all_comparable(ds)) by {
            assert forall|i: int| 0 <= i < ds.len() implies comparable(#[trigger] ds[i]) by {
                assert(ds[i] == s[i]);
            }
        }
        let x = s.last();
        assert(comparable(s[s.len() - 1]));
        lemma_rank_stable(ds, n, d);
        lemma_ranked_descending(ds);
        let t = ranked(ds);
        lemma_premium_slot(t, x, 0);
        let k = premium_slot(t, x, 0);
        let head = t.take(k);
        let tail = t.skip(k);
        assert(t.insert(k, x) =~= head + seq![x] + tail);
        assert(t =~= head + tail);
        Seq::filter_distributes_over_add(head + seq![x], tail, pred);
        Seq::filter_distributes_over_add(head, seq![x], pred);
        Seq::filter_distributes_over_add(head, tail, pred);
        assert(s =~= ds.push(x));
        ds.lemma_filter_push(x, pred);
        assert(seq![x] =~= Seq::<PairView>::empty().push(x));
        Seq::<PairView>::empty().lemma_filter_push(x, pred);
        assert(Seq::<PairView>::empty().filter(pred) =~= Seq::<PairView>::empty()) by {
            reveal(Seq::filter);
        }
        if pred(x) {
            assert(tail.all(|p: PairView| !pred(p))) by {
                assert forall|m: int| 0 <= m < tail.len() implies !pred(#[trigger] tail[m]) by {
                    let y = t[k + m];
                    assert(tail[m] == y);
                    assert(comparable(t[k]) && comparable(y));
                    if m > 0 {
                        assert(at_least(t[k], y));
                        if at_least(y, x) {
                            lemma_at_least_trans(t[k], y, x);
                        }
                    }
                    assert(!at_least(y, x));
                    let (ya, yb, xa, xb) = (y.price_a as int, y.price_b as int, x.price_a as int, x.price_b as int);
                    if pred(y) {
                        assert(ya * xb >= xa * yb) by (nonlinear_arith)
                            requires ya * d == n * yb, xa * d == n * xb, d > 0;
                    }
                }
            }
            tail.lemma_all_neg_filter_empty(pred);
            assert(tail.filter(pred) =~= Seq::<PairView>::empty());
            assert(head.filter(pred) + seq![x] + Seq::<PairView>::empty() =~= head.filter(pred).push(x));
            assert(head.filter(pred) + Seq::<PairView>::empty() =~= head.filter(pred));
        } else {
            assert(head.filter(pred) + Seq::<PairView>::empty() =~= head.filter(pred));
        }
    }
}

} // verus!
