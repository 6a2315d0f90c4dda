use vstd::prelude::*;
use crate::premium::{premium, premium_hundredths, Percent};
use crate::quote::{quote_views, Euro, MarketQuote, QuoteView, MAX_PRICE};
use crate::symbol::bytes_eq;

verus! {

/// One asset quoted on both exchanges. Side `a` is the home exchange, side `b`
/// the reference: `premium` is how much dearer the asset is on `a` than on `b`.
#[derive(Debug)]
pub struct MatchedPair {
    pub asset: Vec<u8>,
    pub price_a: Euro,
    pub price_b: Euro,
    pub premium: Percent,
    pub volume_a: Euro,
    pub volume_b: Euro,
}

/// A matched pair of the two exchanges.
pub type BothAggregate = MatchedPair;

pub ghost struct PairView {
    pub asset: Seq<u8>,
    pub price_a: u128,
    pub price_b: u128,
    pub premium: int,
    pub volume_a: u128,
    pub volume_b: u128,
}

impl View for MatchedPair {
    type V = PairView;

    open spec fn view(&self) -> PairView {
        PairView {
            asset: self.asset@,
            price_a: self.price_a.0,
            price_b: self.price_b.0,
            premium: self.premium.0 as int,
            volume_a: self.volume_a.0,
            volume_b: self.volume_b.0,
        }
    }
}

pub open spec fn pair_views(s: Seq<MatchedPair>) -> Seq<PairView> {
    s.map_values(|p: MatchedPair| p@)
}

pub open spec fn code_views(s: Seq<Vec<u8>>) -> Seq<Seq<u8>> {
    s.map_values(|c: Vec<u8>| c@)
}

/// Index of the first quote at or after `i` whose asset is `c`, or -1.
pub open spec fn first_index(s: Seq<QuoteView>, c: Seq<u8>, i: int) -> int
    decreases s.len() - i,
{
    if i < 0 || i >= s.len() {
        -1
    } else if s[i].asset == c {
        i
    } else {
        first_index(s, c, i + 1)
    }
}

pub open spec fn has_code(s: Seq<QuoteView>, c: Seq<u8>) -> bool {
    exists|i: int| 0 <= i < s.len() && (#[trigger] s[i]).asset == c
}

pub open spec fn pair_of(qa: QuoteView, qb: QuoteView) -> PairView {
    PairView {
        asset: qa.asset,
        price_a: qa.price,
        price_b: qb.price,
        premium: premium_hundredths(qb.price as nat, qa.price as nat),
        volume_a: qa.volume,
        volume_b: qb.volume,
    }
}

/// The pairs formed by the first `n` quotes of `a`: a quote whose asset was not
/// already seen earlier in `a` is paired with the first quote of `b` of that asset.
pub open spec fn matched(a: Seq<QuoteView>, b: Seq<QuoteView>, n: int) -> Seq<PairView>
    decreases n,
{
    if n <= 0 {
        Seq::empty()
    } else {
        let prev = matched(a, b, n - 1);
        let q = a[n - 1];
        let j = first_index(b, q.asset, 0);
        if first_index(a, q.asset, 0) == n - 1 && j >= 0 {
            prev.push(pair_of(q, b[j]))
        } else {
            prev
        }
    }
}

/// The assets among the first `n` quotes of `a`, each once, that `b` lacks.
pub open spec fn unmatched(a: Seq<QuoteView>, b: Seq<QuoteView>, n: int) -> Seq<Seq<u8>>
    decreases n,
{
    if n <= 0 {
        Seq::empty()
    } else {
        let prev = unmatched(a, b, n - 1);
        let q = a[n - 1];
        if first_index(a, q.asset, 0) == n - 1 && first_index(b, q.asset, 0) < 0 {
            prev.push(q.asset)
        } else {
            prev
        }
    }
}

proof fn lemma_first_index(s: Seq<QuoteView>, c: Seq<u8>, i: int)
    requires
        0 <= i <= s.len(),
    ensures
        first_index(s, c, i) == -1 <==> (forall|k: int| i <= k < s.len() ==> s[k].asset != c),
        first_index(s, c, i) != -1 ==> i <= first_index(s, c, i) < s.len() && s[first_index(
            s,
            c,
            i,
        )].asset == c && (forall|k: int| i <= k < first_index(s, c, i) ==> s[k].asset != c),
    decreases s.len() - i,
{
    if i < s.len() {
        lemma_first_index(s, c, i + 1);
    }
}

/// Index of the first quote in `s` for asset `c`.
fn find_first(s: &Vec<MarketQuote>, c: &Vec<u8>) -> (r: Option<usize>)
    ensures
        r.is_none() == (first_index(quote_views(s@), c@, 0) == -1),
        r.is_some() ==> r.unwrap() as int == first_index(quote_views(s@), c@, 0),
{
    let ghost v = quote_views(s@);
    let mut j: usize = 0;
    while j < s.len()
        invariant
            j <= s@.len(),
            v == quote_views(s@),
            first_index(v, c@, 0) == first_index(v, c@, j as int),
        decreases s.len() - j,
    {
        if bytes_eq(s[j].asset.as_slice(), c.as_slice()) {
            return Some(j);
        }
        j = j + 1;
    }
    None
}

/// Joins the quotes of the home exchange `a` with those of the reference
/// exchange `b` by asset code. Returns the matched pairs in the order of `a`,
/// the assets only `a` quotes and the assets only `b` quotes. Where one side
/// quotes an asset twice, its first quote is the one used.
pub fn match_markets(a: &Vec<MarketQuote>, b: &Vec<MarketQuote>) -> (r: (
    Vec<MatchedPair>,
    Vec<Vec<u8>>,
    Vec<Vec<u8>>,
))
    requires
        forall|i: int| 0 <= i < a@.len() ==> (#[trigger] a@[i]).price.0 <= MAX_PRICE,
        forall|i: int| 0 <= i < b@.len() ==> 0 < (#[trigger] b@[i]).price.0 <= MAX_PRICE,
    ensures
        pair_views(r.0@) == matched(quote_views(a@), quote_views(b@), a@.len() as int),
        code_views(r.1@) == unmatched(quote_views(a@), quote_views(b@), a@.len() as int),
        code_views(r.2@) == unmatched(quote_views(b@), quote_views(a@), b@.len() as int),
        forall|i: int|
            0 <= i < r.0@.len() ==> 0 < (#[trigger] r.0@[i]).price_b.0 <= MAX_PRICE
                && r.0@[i].price_a.0 <= MAX_PRICE,
{
    let ghost av = quote_views(a@);
    let ghost bv = quote_views(b@);
    let mut pairs: Vec<MatchedPair> = Vec::new();
    let mut only_a: Vec<Vec<u8>> = Vec::new();
    let mut i: usize = 0;
    while i < a.len()
        invariant
            i <= a@.len(),
            av == quote_views(a@),
            bv == quote_views(b@),
            forall|k: int| 0 <= k < a@.len() ==> (#[trigger] a@[k]).price.0 <= MAX_PRICE,
            forall|k: int| 0 <= k < b@.len() ==> 0 < (#[trigger] b@[k]).price.0 <= MAX_PRICE,
            pair_views(pairs@) =~= matched(av, bv, i as int),
            forall|k: int|
                0 <= k < pairs@.len() ==> 0 < (#[trigger] pairs@[k]).price_b.0 <= MAX_PRICE
                    && pairs@[k].price_a.0 <= MAX_PRICE,
            code_views(only_a@) =~= unmatched(av, bv, i as int),
        decreases a.len() - i,
    {
        let q = &a[i];
        let first = find_first(a, &q.asset);
        let ghost pv = pair_views(pairs@);
        let ghost ov = code_views(only_a@);
        proof {
            lemma_first_index(av, q.asset@, 0);
            lemma_first_index(bv, q.asset@, 0);
        }
        if first == Some(i) {
            match find_first(b, &q.asset) {
                Some(j) => {
                    let qb = &b[j];
                    let p = premium(qb.price.0, q.price.0);
                    pairs.push(
                        MatchedPair {
                            asset: q.asset.clone(),
                            price_a: q.price,
                            price_b: qb.price,
                            premium: p,
                            volume_a: q.volume,
                            volume_b: qb.volume,
                        },
                    );
                    assert(pair_views(pairs@) =~= pv.push(pair_of(av[i as int], bv[j as int])));
                },
                None => {
                    only_a.push(q.asset.clone());
                    assert(code_views(only_a@) =~= ov.push(av[i as int].asset));
                },
            }
        }
        i = i + 1;
    }
    let mut only_b: Vec<Vec<u8>> = Vec::new();
    let mut j: usize = 0;
    while j < b.len()
        invariant
            j <= b@.len(),
            av == quote_views(a@),
            bv == quote_views(b@),
            code_views(only_b@) =~= unmatched(bv, av, j as int),
        decreases b.len() - j,
    {
        let q = &b[j];
        let ghost ov = code_views(only_b@);
        if find_first(b, &q.asset) == Some(j) {
            if find_first(a, &q.asset).is_none() {
                only_b.push(q.asset.clone());
                assert(code_views(only_b@) =~= ov.push(bv[j as int].asset));
            }
        }
        j = j + 1;
    }
    (pairs, only_a, only_b)
}

pub open spec fn pair_codes(s: Seq<PairView>) -> Seq<Seq<u8>> {
    s.map_values(|p: PairView| p.asset)
}

proof fn lemma_push_contains(s: Seq<Seq<u8>>, x: Seq<u8>, c: Seq<u8>)
    ensures
        s.push(x).contains(c) <==> s.contains(c) || x == c,
{
    if s.contains(c) {
        let k = choose|k: int| 0 <= k < s.len() && s[k] == c;
        assert(s.push(x)[k] == c);
    }
    if x == c {
        assert(s.push(x)[s.len() as int] == c);
    }
    if s.push(x).contains(c) {
        let k = choose|k: int| 0 <= k < s.len() + 1 && s.push(x)[k] == c;
        if k < s.len() {
            assert(s[k] == c);
        }
    }
}

proof fn lemma_has_code_take(a: Seq<QuoteView>, n: int, c: Seq<u8>)
    requires
        0 < n <= a.len(),
    ensures
        has_code(a.take(n), c) <==> has_code(a.take(n - 1), c) || a[n - 1].asset == c,
{
    if has_code(a.take(n), c) {
        let k = choose|k: int| 0 <= k < n && (#[trigger] a.take(n)[k]).asset == c;
        if k < n - 1 {
            assert(a.take(n - 1)[k] == a[k]);
        }
    }
    if has_code(a.take(n - 1), c) {
        let k = choose|k: int| 0 <= k < n - 1 && (#[trigger] a.take(n - 1)[k]).asset == c;
        assert(a.take(n)[k] == a[k]);
    }
    if a[n - 1].asset == c {
        assert(a.take(n)[n - 1] == a[n - 1]);
    }
}

proof fn lemma_match_prefix(a: Seq<QuoteView>, b: Seq<QuoteView>, n: int)
    requires
        0 <= n <= a.len(),
    ensures
        forall|c: Seq<u8>|
            #![trigger pair_codes(matched(a, b, n)).contains(c)]
            pair_codes(matched(a, b, n)).contains(c) <==> has_code(a.take(n), c) && has_code(b, c),
        forall|c: Seq<u8>|
            #![trigger unmatched(a, b, n).contains(c)]
            unmatched(a, b, n).contains(c) <==> has_code(a.take(n), c) && !has_code(b, c),
    decreases n,
{
    if n > 0 {
        lemma_match_prefix(a, b, n - 1);
        let q = a[n - 1];
        lemma_first_index(a, q.asset, 0);
        lemma_first_index(b, q.asset, 0);
        let j = first_index(b, q.asset, 0);
        let pm = matched(a, b, n - 1);
        let pu = unmatched(a, b, n - 1);
        assert(j >= 0 <==> has_code(b, q.asset)) by {
            if has_code(b, q.asset) {
                let k = choose|k: int| 0 <= k < b.len() && (#[trigger] b[k]).asset == q.asset;
                assert(b[k].asset == q.asset);
            }
        }
        let f = first_index(a, q.asset, 0);
        if f != n - 1 {
            assert(has_code(a.take(n - 1), q.asset)) by {
                assert(a.take(n - 1)[f].asset == q.asset);
            }
        } else {
            assert(!has_code(a.take(n - 1), q.asset));
        }
        if f == n - 1 && j >= 0 {
            assert(pair_codes(pm.push(pair_of(q, b[j]))) =~= pair_codes(pm).push(q.asset));
        }
        assert forall|c: Seq<u8>|
            #[trigger] pair_codes(matched(a, b, n)).contains(c) <==> has_code(a.take(n), c)
                && has_code(b, c) by {
            lemma_has_code_take(a, n, c);
            lemma_push_contains(pair_codes(pm), q.asset, c);
        }
        assert forall|c: Seq<u8>|
            #[trigger] unmatched(a, b, n).contains(c) <==> has_code(a.take(n), c) && !has_code(
                b,
                c,
            ) by {
            lemma_has_code_take(a, n, c);
            lemma_push_contains(pu, q.asset, c);
        }
    } else {
        assert(pair_codes(matched(a, b, n)) =~= Seq::<Seq<u8>>::empty());
        assert(unmatched(a, b, n) =~= Seq::<Seq<u8>>::empty());
        assert forall|c: Seq<u8>| !has_code(a.take(n), c) && !pair_codes(matched(a, b, n)).contains(c)
            && !unmatched(a, b, n).contains(c) by {}
    }
}

/// The join neither invents nor loses an asset: an asset is matched exactly when
/// both sides quote it, is reported as unmatched for a side exactly when only
/// that side quotes it, and so the matched and unmatched assets of a side
/// together are exactly the assets that side quotes.
pub proof fn lemma_match_partition(a: Seq<QuoteView>, b: Seq<QuoteView>)
    ensures
        forall|c: Seq<u8>|
            #![trigger pair_codes(matched(a, b, a.len() as int)).contains(c)]
            pair_codes(matched(a, b, a.len() as int)).contains(c) <==> has_code(a, c) && has_code(
                b,
                c,
            ),
        forall|c: Seq<u8>|
            #![trigger unmatched(a, b, a.len() as int).contains(c)]
            unmatched(a, b, a.len() as int).contains(c) <==> has_code(a, c) && !has_code(b, c),
        forall|c: Seq<u8>|
            #![trigger unmatched(b, a, b.len() as int).contains(c)]
            unmatched(b, a, b.len() as int).contains(c) <==> has_code(b, c) && !has_code(a, c),
        forall|c: Seq<u8>|
            has_code(a, c) <==> pair_codes(matched(a, b, a.len() as int)).contains(c) || unmatched(
                a,
                b,
                a.len() as int,
            ).contains(c),
{
    lemma_match_prefix(a, b, a.len() as int);
    lemma_match_prefix(b, a, b.len() as int);
    assert(a.take(a.len() as int) =~= a);
    assert(b.take(b.len() as int) =~= b);
}

} // verus!
