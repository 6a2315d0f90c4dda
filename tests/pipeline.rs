use kimchi_premium::decimal::parse_decimal;
use kimchi_premium::matcher::{match_markets, MatchedPair};
use kimchi_premium::premium::{premium, Percent};
use kimchi_premium::quote::{
    aggregate, korbit_venue, kraken_venue, parse_ticker, to_fiat, Euro, MarketQuote, RawTicker,
    Venue, VolumeUnit, EUR_TO_EUR, KRW_TO_EUR, MIN_VOLUME,
};
use kimchi_premium::rank::rank;
use kimchi_premium::report::{korbit_aggregate, kraken_aggregate, premium_report};
use kimchi_premium::symbol::{alias_table, apply_alias, canonicalize, Exchange};

fn ticker(symbol: &str, bid: &str, ask: &str, volume: &str) -> RawTicker {
    parse_ticker(
        symbol.as_bytes().to_vec(),
        bid.as_bytes(),
        ask.as_bytes(),
        volume.as_bytes(),
    )
    .unwrap()
}

fn quote(asset: &str, price: u128, volume: u128) -> MarketQuote {
    MarketQuote { asset: asset.as_bytes().to_vec(), price: Euro(price), volume: Euro(volume) }
}

fn canon(ex: Exchange, s: &str) -> Option<String> {
    canonicalize(ex, s.as_bytes()).map(|c| String::from_utf8(c).unwrap())
}

fn pair(asset: &str, price_a: u128, price_b: u128) -> MatchedPair {
    MatchedPair {
        asset: asset.as_bytes().to_vec(),
        price_a: Euro(price_a),
        price_b: Euro(price_b),
        premium: premium(price_b, price_a),
        volume_a: Euro(1),
        volume_b: Euro(1),
    }
}

#[test]
fn parse_decimal_reads_twelve_decimals() {
    assert_eq!(parse_decimal(b"27000"), Some(27_000_000_000_000_000));
    assert_eq!(parse_decimal(b"26990.5"), Some(26_990_500_000_000_000));
    assert_eq!(parse_decimal(b"0.12345678"), Some(123_456_780_000));
    assert_eq!(parse_decimal(b"0.00000999"), Some(9_990_000));
    assert_eq!(parse_decimal(b"0.1234567890123"), Some(123_456_789_012));
    assert_eq!(parse_decimal(b"0"), Some(0));
    assert_eq!(parse_decimal(b"340282366920938463463374607.431768211455"), Some(u128::MAX));
}

#[test]
fn parse_decimal_rejects_malformed_and_too_large() {
    assert_eq!(parse_decimal(b""), None);
    assert_eq!(parse_decimal(b".5"), None);
    assert_eq!(parse_decimal(b"5."), None);
    assert_eq!(parse_decimal(b"1.2.3"), None);
    assert_eq!(parse_decimal(b"-1"), None);
    assert_eq!(parse_decimal(b"12a"), None);
    assert_eq!(parse_decimal(b"340282366920938463463374607.431768211456"), None);
    assert_eq!(parse_decimal(b"1000000000000000000000000000"), None);
}

#[test]
fn parse_ticker_needs_all_three_amounts() {
    assert!(parse_ticker(b"x".to_vec(), b"1", b"2", b"oops").is_none());
    let t = ticker("btc_krw", "1", "2.5", "3");
    assert_eq!((t.bid, t.ask, t.volume), (1_000_000_000_000, 2_500_000_000_000, 3_000_000_000_000));
    assert_eq!(t.symbol, b"btc_krw".to_vec());
}

#[test]
fn canonicalize_home_exchange() {
    assert_eq!(canon(Exchange::Korbit, "btc_krw"), Some("btc".to_string()));
    assert_eq!(canon(Exchange::Korbit, "BTC_KRW"), Some("btc".to_string()));
    assert_eq!(canon(Exchange::Korbit, "eth"), Some("eth".to_string()));
    assert_eq!(canon(Exchange::Korbit, "krw_usdt"), Some("krw_usdt".to_string()));
}

#[test]
fn canonicalize_reference_exchange() {
    assert_eq!(canon(Exchange::Kraken, "XXBTZEUR"), Some("btc".to_string()));
    assert_eq!(canon(Exchange::Kraken, "XETHZEUR"), Some("eth".to_string()));
    assert_eq!(canon(Exchange::Kraken, "XXRPZEUR"), Some("xrp".to_string()));
    assert_eq!(canon(Exchange::Kraken, "XDGEUR"), Some("doge".to_string()));
    assert_eq!(canon(Exchange::Kraken, "XBTEUR"), Some("btc".to_string()));
    assert_eq!(canon(Exchange::Kraken, "ADAEUR"), Some("ada".to_string()));
    assert_eq!(canon(Exchange::Kraken, "EURTUSD"), Some("tusd".to_string()));
    assert_eq!(canon(Exchange::Kraken, "XXBTZUSD"), None);
    assert_eq!(canon(Exchange::Kraken, "EU"), None);
}

#[test]
fn canonicalize_ignores_case() {
    for s in ["XXBTZEUR", "xXbTzEuR", "DOT_KRW", "AdaEur", "XDGEUR"] {
        let lower = s.to_ascii_lowercase();
        for ex in [Exchange::Korbit, Exchange::Kraken] {
            assert_eq!(canon(ex, s), canon(ex, &lower));
        }
    }
}

#[test]
fn alias_table_is_idempotent() {
    let table = alias_table();
    assert_eq!(table.len(), 5);
    for (spelling, code) in table {
        assert_eq!(apply_alias(spelling.clone()), code);
        assert_eq!(apply_alias(apply_alias(spelling)), code);
    }
    assert_eq!(apply_alias(b"ada".to_vec()), b"ada".to_vec());
}

#[test]
fn premium_of_ten_percent_up_and_down() {
    assert_eq!(premium(100, 110), Percent(1000));
    assert_eq!(premium(100, 90), Percent(-1000));
    assert_eq!(premium(3, 2), Percent(-3333));
    assert_eq!(premium(3, 4), Percent(3333));
    assert_eq!(premium(100, 100), Percent(0));
}

#[test]
fn to_fiat_converts_won_mid_price() {
    let t = ticker("btc_krw", "40000000", "40010000", "10");
    let (price, volume) = to_fiat(&t, KRW_TO_EUR, VolumeUnit::Base).unwrap();
    assert_eq!(price, Euro(29_843_730_000_000_000));
    assert_eq!(volume, Euro(298_437_000_000_000_000));
}

#[test]
fn to_fiat_does_not_reprice_quote_volume() {
    let cheap = ticker("a", "1", "1", "5000");
    let dear = ticker("b", "900", "1100", "5000");
    let (_, v1) = to_fiat(&cheap, EUR_TO_EUR, VolumeUnit::Quote).unwrap();
    let (p2, v2) = to_fiat(&dear, EUR_TO_EUR, VolumeUnit::Quote).unwrap();
    assert_eq!(v1, Euro(5_000_000_000_000_000));
    assert_eq!(v2, Euro(5_000_000_000_000_000));
    assert_eq!(p2, Euro(1_000_000_000_000_000));
    let won = ticker("c", "1", "1", "10000000");
    let (_, v3) = to_fiat(&won, KRW_TO_EUR, VolumeUnit::Quote).unwrap();
    assert_eq!(v3, Euro(7_460_000_000_000_000));
    let (_, v4) = to_fiat(&dear, EUR_TO_EUR, VolumeUnit::Base).unwrap();
    assert_eq!(v4, Euro(5_000_000_000_000_000_000));
}

#[test]
fn to_fiat_rejects_overflow() {
    let t = RawTicker { symbol: vec![], bid: u128::MAX, ask: 1, volume: 1 };
    assert!(to_fiat(&t, EUR_TO_EUR, VolumeUnit::Base).is_none());
    let t = RawTicker { symbol: vec![], bid: u128::MAX / 4, ask: u128::MAX / 4, volume: 1 };
    assert!(to_fiat(&t, 2, VolumeUnit::Base).is_none());
    let t = ticker("x", "20000000", "20000000", "1");
    assert!(to_fiat(&t, EUR_TO_EUR, VolumeUnit::Base).is_none());
    let t = ticker("x", "1000", "1000", "1000000000000000");
    assert!(to_fiat(&t, EUR_TO_EUR, VolumeUnit::Base).is_none());
}

#[test]
fn aggregate_excludes_threshold_volume() {
    let venue = Venue { exchange: Exchange::Kraken, rate: EUR_TO_EUR, volume_unit: VolumeUnit::Quote };
    let tickers = vec![
        ticker("ATEUR", "1", "1", "3000"),
        ticker("BTEUR", "1", "1", "3000.6"),
        ticker("CTEUR", "1", "1", "2999"),
        ticker("DTEUR", "0", "0", "9000"),
        ticker("ETUSD", "1", "1", "9000"),
    ];
    let out = aggregate(venue, &tickers);
    assert_eq!(out.len(), 1);
    assert_eq!(out[0].asset, b"bt".to_vec());
    assert_eq!(out[0].volume, Euro(3_001_000_000_000_000));
    assert!(out.iter().all(|q| q.volume.0 > MIN_VOLUME));
}

#[test]
fn aggregate_orders_by_descending_volume() {
    let tickers = vec![
        ticker("AAAEUR", "10", "10", "400"),
        ticker("BBBEUR", "10", "10", "900"),
        ticker("CCCEUR", "10", "10", "400"),
        ticker("DDDEUR", "10", "10", "600"),
    ];
    let out = aggregate(kraken_venue(), &tickers);
    let names: Vec<&[u8]> = out.iter().map(|q| q.asset.as_slice()).collect();
    assert_eq!(names, vec![&b"bbb"[..], &b"ddd"[..], &b"aaa"[..], &b"ccc"[..]]);
}

#[test]
fn match_partitions_assets() {
    let a = vec![quote("btc", 110, 9), quote("eth", 50, 8), quote("sol", 5, 7)];
    let b = vec![quote("eth", 40, 6), quote("btc", 100, 5), quote("ada", 1, 4)];
    let (pairs, only_a, only_b) = match_markets(&a, &b);
    let names: Vec<&[u8]> = pairs.iter().map(|p| p.asset.as_slice()).collect();
    assert_eq!(names, vec![&b"btc"[..], &b"eth"[..]]);
    assert_eq!(pairs[0].price_a, Euro(110));
    assert_eq!(pairs[0].price_b, Euro(100));
    assert_eq!(pairs[0].premium, Percent(1000));
    assert_eq!(pairs[1].premium, Percent(2500));
    assert_eq!(only_a, vec![b"sol".to_vec()]);
    assert_eq!(only_b, vec![b"ada".to_vec()]);
}

#[test]
fn match_uses_first_quote_of_a_duplicated_asset() {
    let a = vec![quote("btc", 110, 9), quote("btc", 500, 1)];
    let b = vec![quote("btc", 100, 5), quote("btc", 1, 1), quote("xrp", 1, 1), quote("xrp", 2, 1)];
    let (pairs, only_a, only_b) = match_markets(&a, &b);
    assert_eq!(pairs.len(), 1);
    assert_eq!(pairs[0].price_a, Euro(110));
    assert_eq!(pairs[0].price_b, Euro(100));
    assert_eq!(pairs[0].volume_b, Euro(5));
    assert!(only_a.is_empty());
    assert_eq!(only_b, vec![b"xrp".to_vec()]);
}

#[test]
fn rank_sorts_by_signed_premium_descending() {
    let ranked = rank(vec![
        pair("a", 95, 100),
        pair("b", 103, 100),
        pair("c", 80, 100),
        pair("d", 206, 200),
        pair("e", 100, 100),
    ]);
    let premiums: Vec<i128> = ranked.iter().map(|p| p.premium.0).collect();
    assert_eq!(premiums, vec![300, 300, 0, -500, -2000]);
    for w in ranked.windows(2) {
        assert!(w[0].premium.0 >= w[1].premium.0);
    }
    assert_eq!(ranked[0].asset, b"b".to_vec());
    assert_eq!(ranked[1].asset, b"d".to_vec());
}

#[test]
fn rank_compares_unrounded_premiums() {
    let ranked = rank(vec![pair("low", 110_546, 100_000), pair("high", 110_554, 100_000)]);
    assert_eq!(ranked[0].premium, ranked[1].premium);
    assert_eq!(ranked[0].asset, b"high".to_vec());
    assert_eq!(ranked[1].asset, b"low".to_vec());
}

#[test]
fn sub_cent_pair_keeps_its_premium() {
    let home = vec![ticker("shib_krw", "0.014", "0.014", "1000000000000")];
    let reference = vec![ticker("SHIBEUR", "0.00000999", "0.00000999", "1000000000000")];
    let r = premium_report(&home, &reference);
    assert_eq!(r.pairs.len(), 1);
    let p = &r.pairs[0];
    assert_eq!(p.asset, b"shib".to_vec());
    assert_eq!(p.price_b, Euro(9_990_000));
    assert_eq!(p.price_a, Euro(10_444_000));
    assert_eq!(p.premium, Percent(454));
    assert_eq!(p.volume_b, Euro(9_990_000_000_000_000_000));
}

#[test]
fn end_to_end_btc_premium() {
    let home = vec![ticker("btc_krw", "40000000", "40010000", "10"), ticker("eth_krw", "1", "1", "1")];
    let reference = vec![ticker("XXBTZEUR", "26990", "27000", "50"), ticker("ADAEUR", "1", "1", "1")];
    let r = premium_report(&home, &reference);
    assert_eq!(r.quotes_a.len(), 1);
    assert_eq!(r.quotes_b.len(), 1);
    assert_eq!(r.quotes_b[0].price, Euro(26_995_000_000_000_000));
    assert_eq!(r.quotes_b[0].volume, Euro(1_349_750_000_000_000_000));
    assert_eq!(r.pairs.len(), 1);
    let p = &r.pairs[0];
    assert_eq!(p.asset, b"btc".to_vec());
    assert_eq!(p.price_a, Euro(29_843_730_000_000_000));
    assert_eq!(p.price_b, Euro(26_995_000_000_000_000));
    assert_eq!(p.volume_a, Euro(298_437_000_000_000_000));
    assert_eq!(p.volume_b, Euro(1_349_750_000_000_000_000));
    assert_eq!(p.premium, Percent(1055));
    assert!(r.only_a.is_empty());
    assert!(r.only_b.is_empty());
}

#[test]
fn venues_carry_their_rates() {
    assert_eq!(korbit_venue().rate, KRW_TO_EUR);
    assert_eq!(kraken_venue().rate, 1_000_000_000_000);
    assert_eq!(korbit_venue().volume_unit, VolumeUnit::Base);
}

#[test]
fn korbit_aggregate_converts_won_and_filters() {
    let tickers = vec![
        ticker("btc_krw", "40000000", "40010000", "10"),
        ticker("eth_krw", "2000000", "2000000", "1"),
        ticker("xrp_krw", "700", "700", "100000"),
    ];
    let out = korbit_aggregate(&tickers);
    assert_eq!(out.len(), 2);
    assert_eq!(out[0].asset, b"btc".to_vec());
    assert_eq!(out[0].volume, Euro(298_437_000_000_000_000));
    assert_eq!(out[1].asset, b"xrp".to_vec());
    assert_eq!(out[1].price, Euro(522_200_000_000));
    assert_eq!(out[1].volume, Euro(52_220_000_000_000_000));
}

#[test]
fn kraken_aggregate_keeps_euro_pairs_only() {
    let tickers = vec![
        ticker("XXBTZUSD", "30000", "30000", "100"),
        ticker("XXBTZEUR", "26990", "27000", "50"),
        ticker("XETHZEUR", "1500", "1500", "1"),
    ];
    let out = kraken_aggregate(&tickers);
    assert_eq!(out.len(), 1);
    assert_eq!(out[0].asset, b"btc".to_vec());
    assert_eq!(out[0].price, Euro(26_995_000_000_000_000));
}
