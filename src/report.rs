use vstd::prelude::*;
use crate::matcher::{code_views, match_markets, matched, pair_views, unmatched, BothAggregate};
use crate::quote::{
    aggregate, kept_quotes, korbit_venue, kraken_venue, quote_views, sorted_by_volume,
    volume_descending, KorbitAggregate, KorbitMarket, KrakenAggregate, MarketQuote, RawTicker, Venue,
    VolumeUnit, EUR_TO_EUR, KRW_TO_EUR, MAX_PRICE, MIN_VOLUME,
};
use crate::rank::{comparable, premium_descending, rank, ranked};
use crate::symbol::Exchange;

verus! {

/// One run of the pipeline: both exchanges' quotes, the matched pairs ranked by
/// premium, and the assets quoted on one side only.
#[derive(Debug)]
pub struct Report {
    pub quotes_a: Vec<MarketQuote>,
    pub quotes_b: Vec<MarketQuote>,
    pub pairs: Vec<BothAggregate>,
    pub only_a: Vec<Vec<u8>>,
    pub only_b: Vec<Vec<u8>>,
}

pub open spec fn home_venue() -> Venue {
    Venue { exchange: Exchange::Korbit, rate: KRW_TO_EUR, volume_unit: VolumeUnit::Base }
}

pub open spec fn reference_venue() -> Venue {
    Venue { exchange: Exchange::Kraken, rate: EUR_TO_EUR, volume_unit: VolumeUnit::Base }
}

/// The home exchange's quotes: its won tickers converted to euros, the liquid
/// ones kept, ordered by descending euro volume.
pub fn korbit_aggregate(tickers: &Vec<KorbitMarket>) -> (r: Vec<KorbitAggregate>)
    ensures
        quote_views(r@) == sorted_by_volume(kept_quotes(home_venue(), tickers@)),
        quote_views(r@).to_multiset() == kept_quotes(home_venue(), tickers@).to_multiset(),
        volume_descending(quote_views(r@)),
        forall|i: int|
            0 <= i < r@.len() ==> (#[trigger] r@[i]).volume.0 > MIN_VOLUME && r@[i].price.0 > 0
                && r@[i].price.0 <= MAX_PRICE,
{
    aggregate(korbit_venue(), tickers)
}

/// The reference exchange's quotes: its euro pairs, the liquid ones kept,
/// ordered by descending euro volume.
pub fn kraken_aggregate(tickers: &Vec<RawTicker>) -> (r: Vec<KrakenAggregate>)
    ensures
        quote_views(r@) == sorted_by_volume(kept_quotes(reference_venue(), tickers@)),
        quote_views(r@).to_multiset() == kept_quotes(reference_venue(), tickers@).to_multiset(),
        volume_descending(quote_views(r@)),
        forall|i: int|
            0 <= i < r@.len() ==> (#[trigger] r@[i]).volume.0 > MIN_VOLUME && r@[i].price.0 > 0
                && r@[i].price.0 <= MAX_PRICE,
{
    aggregate(kraken_venue(), tickers)
}

/// Aggregates the home exchange's won tickers and the reference exchange's
/// tickers, joins them by asset and ranks the pairs by descending premium of
/// the home exchange over the reference.
pub fn premium_report(home: &Vec<RawTicker>, reference: &Vec<RawTicker>) -> (r: Report)
    ensures
        quote_views(r.quotes_a@).to_multiset() == kept_quotes(home_venue(), home@).to_multiset(),
        volume_descending(quote_views(r.quotes_a@)),
        quote_views(r.quotes_b@).to_multiset() == kept_quotes(reference_venue(), reference@).to_multiset(),
        volume_descending(quote_views(r.quotes_b@)),
        quote_views(r.quotes_a@) == sorted_by_volume(kept_quotes(home_venue(), home@)),
        quote_views(r.quotes_b@) == sorted_by_volume(kept_quotes(reference_venue(), reference@)),
        pair_views(r.pairs@) == ranked(
            matched(quote_views(r.quotes_a@), quote_views(r.quotes_b@), r.quotes_a@.len() as int),
        ),
        pair_views(r.pairs@).to_multiset() == matched(
            quote_views(r.quotes_a@),
            quote_views(r.quotes_b@),
            r.quotes_a@.len() as int,
        ).to_multiset(),
        premium_descending(pair_views(r.pairs@)),
        code_views(r.only_a@) == unmatched(
            quote_views(r.quotes_a@),
            quote_views(r.quotes_b@),
            r.quotes_a@.len() as int,
        ),
        code_views(r.only_b@) == unmatched(
            quote_views(r.quotes_b@),
            quote_views(r.quotes_a@),
            r.quotes_b@.len() as int,
        ),
{
    let quotes_a = korbit_aggregate(home);
    let quotes_b = kraken_aggregate(reference);
    let (pairs, only_a, only_b) = match_markets(&quotes_a, &quotes_b);
    proof {
        assert forall|i: int| 0 <= i < pairs@.len() implies comparable(
            #[trigger] pair_views(pairs@)[i],
        ) by {
            assert(pair_views(pairs@)[i] == pairs@[i]@);
        }
    }
    let pairs = rank(pairs);
    Report { quotes_a, quotes_b, pairs, only_a, only_b }
}

} // verus!
