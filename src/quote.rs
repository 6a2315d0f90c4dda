use vstd::prelude::*;
use crate::decimal::{decimal_parse, parse_decimal, SCALE};
use crate::symbol::{canonical, canonicalize, Exchange};

verus! {

broadcast use vstd::seq_lib::group_to_multiset_ensures;

/// An amount in euros, counted in units of 1e-12 EUR.
#[derive(Clone, Copy, Debug, PartialEq, Eq, Structural)]
pub struct Euro(pub u128);

/// Euro price of one won (0.000746 EUR), in units of 1e-12 EUR.
pub const KRW_TO_EUR: u128 = 746_000_000;

/// Euro price of one euro, in units of 1e-12 EUR.
pub const EUR_TO_EUR: u128 = 1_000_000_000_000;

/// Markets whose euro volume is at or below this amount (3000 EUR, in units of
/// 1e-12 EUR) are dropped.
pub const MIN_VOLUME: u128 = 3_000_000_000_000_000;

/// The unit an exchange reports traded volume in.
#[derive(Clone, Copy, Debug, PartialEq, Eq, Structural)]
pub enum VolumeUnit {
    /// Units of the traded asset: converted by multiplying by the price.
    Base,
    /// The exchange's quote currency: only the currency is converted.
    Quote,
}

/// What the aggregation needs to know of one exchange.
#[derive(Clone, Copy, Debug, PartialEq, Eq, Structural)]
pub struct Venue {
    pub exchange: Exchange,
    /// Euro price of one unit of the exchange's quote currency, in units of 1e-12 EUR.
    pub rate: u128,
    pub volume_unit: VolumeUnit,
}

/// One raw ticker entry. `bid`, `ask` and `volume` are in units of 1e-12 of
/// the exchange's quote currency (bid, ask) and of its volume unit (volume).
#[derive(Debug)]
pub struct RawTicker {
    pub symbol: Vec<u8>,
    pub bid: u128,
    pub ask: u128,
    pub volume: u128,
}

/// One exchange's euro quote of one asset.
#[derive(Debug)]
pub struct MarketQuote {
    pub asset: Vec<u8>,
    pub price: Euro,
    pub volume: Euro,
}

/// A quote of the home exchange.
pub type KorbitAggregate = MarketQuote;

/// A quote of the reference exchange.
pub type KrakenAggregate = MarketQuote;

/// A raw ticker entry of the home exchange.
pub type KorbitMarket = RawTicker;

pub ghost struct QuoteView {
    pub asset: Seq<u8>,
    pub price: u128,
    pub volume: u128,
}

impl View for MarketQuote {
    type V = QuoteView;

    open spec fn view(&self) -> QuoteView {
        QuoteView { asset: self.asset@, price: self.price.0, volume: self.volume.0 }
    }
}

pub open spec fn quote_views(s: Seq<MarketQuote>) -> Seq<QuoteView> {
    s.map_values(|q: MarketQuote| q@)
}

/// The home exchange: won quotes, volume in units of the asset.
pub fn korbit_venue() -> (r: Venue)
    ensures
        r == (Venue { exchange: Exchange::Korbit, rate: KRW_TO_EUR, volume_unit: VolumeUnit::Base }),
{
    Venue { exchange: Exchange::Korbit, rate: KRW_TO_EUR, volume_unit: VolumeUnit::Base }
}

/// The euro exchange: euro quotes, volume in units of the asset.
pub fn kraken_venue() -> (r: Venue)
    ensures
        r == (Venue { exchange: Exchange::Kraken, rate: EUR_TO_EUR, volume_unit: VolumeUnit::Base }),
{
    Venue { exchange: Exchange::Kraken, rate: EUR_TO_EUR, volume_unit: VolumeUnit::Base }
}

/// The largest price kept, in units of 1e-12 EUR (about 18 million euros):
/// prices up to it can be multiplied together exactly.
pub const MAX_PRICE: u128 = 18_446_744_073_709_551_615;

/// Euro price (units of 1e-12 EUR): the midpoint of bid and ask, times the rate.
pub open spec fn fiat_price(bid: nat, ask: nat, rate: nat) -> nat {
    ((bid + ask) * rate) / 2_000_000_000_000
}

/// A product of two amounts in units of 1e-12, rounded to whole euros (halves
/// round up) and given in units of 1e-12 EUR.
pub open spec fn round_to_euros(x: nat) -> nat {
    ((x / 500_000_000_000_000_000_000_000 + 1) / 2) * 1_000_000_000_000
}

/// The product that the euro volume is rounded from.
pub open spec fn volume_product(unit: VolumeUnit, volume: nat, price: nat, rate: nat) -> nat {
    match unit {
        VolumeUnit::Base => volume * price,
        VolumeUnit::Quote => volume * rate,
    }
}

/// Euro price and euro volume of a ticker, or `None` where an intermediate
/// amount exceeds `u128` or the price exceeds `MAX_PRICE`.
pub open spec fn fiat_of(t: RawTicker, rate: u128, unit: VolumeUnit) -> Option<(Euro, Euro)> {
    let sum = t.bid as nat + t.ask as nat;
    let p = fiat_price(t.bid as nat, t.ask as nat, rate as nat);
    let x = volume_product(unit, t.volume as nat, p, rate as nat);
    if sum > u128::MAX || sum * rate > u128::MAX || p > MAX_PRICE || x > u128::MAX {
        None
    } else {
        Some((Euro(p as u128), Euro(round_to_euros(x) as u128)))
    }
}

/// Converts a ticker into a euro price and a euro volume.
pub fn to_fiat(t: &RawTicker, rate: u128, unit: VolumeUnit) -> (r: Option<(Euro, Euro)>)
    ensures
        r == fiat_of(*t, rate, unit),
{
    let sum = match t.bid.checked_add(t.ask) {
        Some(x) => x,
        None => return None,
    };
    let prod = match sum.checked_mul(rate) {
        Some(x) => x,
        None => return None,
    };
    let price: u128 = prod / 2_000_000_000_000;
    if price > MAX_PRICE {
        return None;
    }
    let factor: u128 = match unit {
        VolumeUnit::Base => price,
        VolumeUnit::Quote => rate,
    };
    let x = match t.volume.checked_mul(factor) {
        Some(x) => x,
        None => return None,
    };
    let halves: u128 = x / 500_000_000_000_000_000_000_000;
    assert(halves <= 680_564_733_841_876) by (nonlinear_arith)
        requires halves == x / 500_000_000_000_000_000_000_000, x <= u128::MAX;
    let volume: u128 = ((halves + 1) / 2) * SCALE;
    Some((Euro(price), Euro(volume)))
}

/// The quote that a raw ticker yields on a venue, if it is kept: its symbol is a
/// followed market, its amounts convert, its price is positive and its euro
/// volume strictly exceeds `MIN_VOLUME`.
pub open spec fn quote_of(v: Venue, t: RawTicker) -> Option<QuoteView> {
    match canonical(v.exchange, t.symbol@) {
        None => None,
        Some(code) => match fiat_of(t, v.rate, v.volume_unit) {
            None => None,
            Some((p, vol)) => if p.0 > 0 && vol.0 > MIN_VOLUME {
                Some(QuoteView { asset: code, price: p.0, volume: vol.0 })
            } else {
                None
            },
        },
    }
}

/// The quotes kept from `t`, in input order.
pub open spec fn kept_quotes(v: Venue, t: Seq<RawTicker>) -> Seq<QuoteView>
    decreases t.len(),
{
    if t.len() == 0 {
        Seq::empty()
    } else {
        let prev = kept_quotes(v, t.drop_last());
        match quote_of(v, t.last()) {
            Some(q) => prev.push(q),
            None => prev,
        }
    }
}

pub open spec fn volume_descending(s: Seq<QuoteView>) -> bool {
    forall|i: int, j: int| 0 <= i < j < s.len() ==> s[i].volume >= s[j].volume
}

/// Where a quote of volume `v` goes in `t`: before the first quote at or after
/// `k` of smaller volume, else at the end.
pub open spec fn volume_slot(t: Seq<QuoteView>, v: u128, k: int) -> int
    decreases t.len() - k,
{
    if k < 0 || k >= t.len() {
        t.len() as int
    } else if t[k].volume < v {
        k
    } else {
        volume_slot(t, v, k + 1)
    }
}

/// Stable sort by descending volume: each quote in turn goes after every quote
/// already placed whose volume is at least its own.
pub open spec fn sorted_by_volume(s: Seq<QuoteView>) -> Seq<QuoteView>
    decreases s.len(),
{
    if s.len() == 0 {
        s
    } else {
        let t = sorted_by_volume(s.drop_last());
        t.insert(volume_slot(t, s.last().volume, 0), s.last())
    }
}

fn duplicate(q: &MarketQuote) -> (r: MarketQuote)
    ensures
        r@ == q@,
{
    MarketQuote { asset: q.asset.clone(), price: q.price, volume: q.volume }
}

/// Sorts quotes by descending euro volume; quotes of equal volume keep their order.
pub fn sort_by_volume(s: Vec<MarketQuote>) -> (r: Vec<MarketQuote>)
    ensures
        quote_views(r@) == sorted_by_volume(quote_views(s@)),
        quote_views(r@).to_multiset() == quote_views(s@).to_multiset(),
        volume_descending(quote_views(r@)),
{
    let mut out: Vec<MarketQuote> = Vec::new();
    let mut i: usize = 0;
    while i < s.len()
        invariant
            i <= s@.len(),
            quote_views(out@) == sorted_by_volume(quote_views(s@.take(i as int))),
            quote_views(out@).to_multiset() == quote_views(s@.take(i as int)).to_multiset(),
            volume_descending(quote_views(out@)),
        decreases s.len() - i,
    {
        let x = duplicate(&s[i]);
        let mut k: usize = 0;
        while k < out.len() && out[k].volume.0 >= x.volume.0
            invariant
                k <= out@.len(),
                forall|m: int| 0 <= m < k ==> out@[m].volume.0 >= x.volume.0,
                volume_descending(quote_views(out@)),
                volume_slot(quote_views(out@), x.volume.0, 0) == volume_slot(
                    quote_views(out@),
                    x.volume.0,
                    k as int,
                ),
            decreases out.len() - k,
        {
            k = k + 1;
        }
        let ghost before = out@;
        out.insert(k, x);
        proof {
            assert(quote_views(out@) =~= quote_views(before).insert(k as int, x@));
            assert(s@.take(i + 1) =~= s@.take(i as int).push(s@[i as int]));
            assert(quote_views(s@.take(i + 1)) =~= quote_views(s@.take(i as int)).push(s@[i as int]@));
            vstd::seq_lib::to_multiset_insert(quote_views(before), k as int, x@);
            assert(quote_views(s@.take(i + 1)).drop_last() =~= quote_views(s@.take(i as int)));
            let bv = quote_views(before);
            let ov = quote_views(out@);
            assert forall|a: int, b: int| 0 <= a < b < ov.len() implies ov[a].volume
                >= ov[b].volume by {
                if k < before.len() {
                    assert(bv[k as int].volume < x.volume.0);
                }
                if a < k && b == k {
                } else if a < k && b > k {
                    assert(ov[a] == bv[a]);
                    assert(ov[b] == bv[b - 1]);
                } else if a == k {
                    assert(ov[b] == bv[b - 1]);
                    assert(bv[k as int].volume >= bv[b - 1].volume || b - 1 == k);
                } else if b < k {
                    assert(ov[a] == bv[a] && ov[b] == bv[b]);
                } else {
                    assert(ov[a] == bv[a - 1] && ov[b] == bv[b - 1]);
                }
            }
        }
        i = i + 1;
    }
    assert(s@.take(s@.len() as int) =~= s@);
    out
}

/// One exchange's quotes: each ticker whose symbol is followed is converted to
/// euros, those with a positive price and a euro volume strictly above
/// `MIN_VOLUME` are kept, and the result is ordered by descending volume
/// (equal volumes keep their input order).
pub fn aggregate(v: Venue, tickers: &Vec<RawTicker>) -> (r: Vec<MarketQuote>)
    ensures
        quote_views(r@) == sorted_by_volume(kept_quotes(v, tickers@)),
        quote_views(r@).to_multiset() == kept_quotes(v, tickers@).to_multiset(),
        volume_descending(quote_views(r@)),
        forall|i: int|
            0 <= i < r@.len() ==> (#[trigger] r@[i]).volume.0 > MIN_VOLUME && r@[i].price.0 > 0
                && r@[i].price.0 <= MAX_PRICE,
{
    let mut kept: Vec<MarketQuote> = Vec::new();
    let mut i: usize = 0;
    while i < tickers.len()
        invariant
            i <= tickers@.len(),
            quote_views(kept@) =~= kept_quotes(v, tickers@.take(i as int)),
            forall|k: int|
                0 <= k < kept@.len() ==> (#[trigger] kept@[k]).volume.0 > MIN_VOLUME
                    && kept@[k].price.0 > 0 && kept@[k].price.0 <= MAX_PRICE,
        decreases tickers.len() - i,
    {
        let t = &tickers[i];
        proof {
            assert(tickers@.take(i + 1).drop_last() =~= tickers@.take(i as int));
            assert(tickers@.take(i + 1).last() == tickers@[i as int]);
        }
        let ghost before = kept@;
        match canonicalize(v.exchange, t.symbol.as_slice()) {
            None => {},
            Some(code) => match to_fiat(t, v.rate, v.volume_unit) {
                None => {},
                Some((price, volume)) => {
                    if price.0 > 0 && volume.0 > MIN_VOLUME {
                        kept.push(MarketQuote { asset: code, price, volume });
                        assert(quote_views(kept@) =~= quote_views(before).push(kept@.last()@));
                    }
                },
            },
        }
        i = i + 1;
    }
    assert(tickers@.take(tickers@.len() as int) =~= tickers@);
    let r = sort_by_volume(kept);
    proof {
        let rv = quote_views(r@);
        let kv = quote_views(kept@);
        assert forall|i: int| 0 <= i < r@.len() implies (#[trigger] r@[i]).volume.0 > MIN_VOLUME
            && r@[i].price.0 > 0 && r@[i].price.0 <= MAX_PRICE by {
            assert(rv[i] == r@[i]@);
            assert(rv.contains(rv[i]));
            assert(rv.to_multiset().count(rv[i]) > 0);
            assert(kv.contains(rv[i]));
            let k = choose|k: int| 0 <= k < kv.len() && kv[k] == rv[i];
            assert(kept@[k]@ == kv[k]);
        }
    }
    r
}

/// Where an exchange reports volume already in its quote currency, the euro
/// volume is that amount converted at the rate and rounded to whole euros: it
/// does not depend on the price, so it is never multiplied by the price again.
pub proof fn lemma_quote_volume_not_repriced(t: RawTicker, u: RawTicker, rate: u128)
    requires
        t.volume == u.volume,
        fiat_of(t, rate, VolumeUnit::Quote).is_some(),
        fiat_of(u, rate, VolumeUnit::Quote).is_some(),
    ensures
        fiat_of(t, rate, VolumeUnit::Quote).unwrap().1 == fiat_of(u, rate, VolumeUnit::Quote).unwrap().1,
        fiat_of(t, rate, VolumeUnit::Quote).unwrap().1.0 == round_to_euros(t.volume as nat * rate as nat),
{
}

/// Reads one ticker from the exchange's decimal texts. `None` where one of the
/// three amounts is not a decimal text or does not fit.
pub fn parse_ticker(symbol: Vec<u8>, bid: &[u8], ask: &[u8], volume: &[u8]) -> (r: Option<RawTicker>)
    ensures
        r.is_some() == (decimal_parse(bid@).is_some() && decimal_parse(ask@).is_some()
            && decimal_parse(volume@).is_some()),
        r.is_some() ==> r.unwrap().symbol@ == symbol@ && Some(r.unwrap().bid) == decimal_parse(bid@)
            && Some(r.unwrap().ask) == decimal_parse(ask@) && Some(r.unwrap().volume)
            == decimal_parse(volume@),
{
    match (parse_decimal(bid), parse_decimal(ask), parse_decimal(volume)) {
        (Some(b), Some(a), Some(v)) => Some(RawTicker { symbol, bid: b, ask: a, volume: v }),
        _ => None,
    }
}

pub open spec fn with_volume(v: u128) -> spec_fn(QuoteView) -> bool {
    |p: QuoteView| p.volume == v
}

proof fn lemma_volume_slot_bounds(t: Seq<QuoteView>, v: u128, k: int)
    requires
        0 <= k <= t.len(),
    ensures
        k <= volume_slot(t, v, k) <= t.len(),
        forall|m: int| k <= m < volume_slot(t, v, k) ==> t[m].volume >= v,
        volume_slot(t, v, k) < t.len() ==> t[volume_slot(t, v, k)].volume < v,
    decreases t.len() - k,
{
    if k < t.len() {
        lemma_volume_slot_bounds(t, v, k + 1);
    }
}

/// The volume sort is ordered: along it the volume never increases, and it
/// holds as many quotes as it was given.
pub proof fn lemma_sorted_by_volume_descending(s: Seq<QuoteView>)
    ensures
        sorted_by_volume(s).len() == s.len(),
        volume_descending(sorted_by_volume(s)),
    decreases s.len(),
{
    if s.len() > 0 {
        let t = sorted_by_volume(s.drop_last());
        let x = s.last();
        lemma_sorted_by_volume_descending(s.drop_last());
        lemma_volume_slot_bounds(t, x.volume, 0);
        let k = volume_slot(t, x.volume, 0);
        let r = t.insert(k, x);
        assert forall|a: int, b: int| 0 <= a < b < r.len() implies r[a].volume
            >= r[b].volume by {
            if a < k && b == k {
            } else if a < k && b > k {
                assert(r[a] == t[a]);
                assert(r[b] == t[b - 1]);
            } else if a == k {
                assert(r[b] == t[b - 1]);
                assert(t[k].volume >= t[b - 1].volume || b - 1 == k);
            } else if b < k {
                assert(r[a] == t[a] && r[b] == t[b]);
            } else {
                assert(r[a] == t[a - 1] && r[b] == t[b - 1]);
            }
        }
    }
}

/// The volume sort is stable: the quotes of any one volume come out in the
/// order they went in.
pub proof fn lemma_volume_sort_stable(s: Seq<QuoteView>, v: u128)
    ensures
        sorted_by_volume(s).filter(with_volume(v)) == s.filter(with_volume(v)),
    decreases s.len(),
{
    if s.len() > 0 {
        let pred = with_volume(v);
        let d = s.drop_last();
        let t = sorted_by_volume(d);
        let x = s.last();
        lemma_volume_sort_stable(d, v);
        lemma_sorted_by_volume_descending(d);
        lemma_volume_slot_bounds(t, x.volume, 0);
        let k = volume_slot(t, x.volume, 0);
        let head = t.take(k);
        let tail = t.skip(k);
        assert(t.insert(k, x) =~= head + seq![x] + tail);
        assert(t =~= head + tail);
        Seq::filter_distributes_over_add(head + seq![x], tail, pred);
        Seq::filter_distributes_over_add(head, seq![x], pred);
        Seq::filter_distributes_over_add(head, tail, pred);
        assert(s =~= d.push(x));
        d.lemma_filter_push(x, pred);
        assert(seq![x] =~= Seq::<QuoteView>::empty().push(x));
        Seq::<QuoteView>::empty().lemma_filter_push(x, pred);
        assert(Seq::<QuoteView>::empty().filter(pred) =~= Seq::<QuoteView>::empty()) by {
            reveal(Seq::filter);
        }
        if x.volume == v {
            assert(tail.all(|p: QuoteView| !pred(p))) by {
                assert forall|m: int| 0 <= m < tail.len() implies !pred(#[trigger] tail[m]) by {
                    assert(tail[m] == t[k + m]);
                    assert(t[k].volume >= t[k + m].volume || m == 0);
                }
            }
            tail.lemma_all_neg_filter_empty(pred);
            assert(tail.filter(pred) =~= Seq::<QuoteView>::empty());
            assert(head.filter(pred) + seq![x] + Seq::<QuoteView>::empty() =~= head.filter(pred).push(x));
            assert(head.filter(pred) + Seq::<QuoteView>::empty() =~= head.filter(pred));
        } else {
            assert(head.filter(pred) + Seq::<QuoteView>::empty() =~= head.filter(pred));
        }
    }
}

} // verus!
