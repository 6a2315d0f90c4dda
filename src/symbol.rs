use vstd::prelude::*;

verus! {

/// The two venues: the home exchange quotes everything in won, the other in
/// many currencies of which only the euro pairs are used.
#[derive(Clone, Copy, Debug, PartialEq, Eq, Structural)]
pub enum Exchange {
    Korbit,
    Kraken,
}

pub open spec fn lower_byte(b: u8) -> u8 {
    if 65 <= b <= 90 {
        (b + 32) as u8
    } else {
        b
    }
}

/// ASCII lower-casing of a symbol.
pub open spec fn lower(s: Seq<u8>) -> Seq<u8> {
    s.map_values(|b: u8| lower_byte(b))
}

pub open spec fn krw_suffix() -> Seq<u8> {
    seq![95u8, 107u8, 114u8, 119u8]
}

pub open spec fn eur_code() -> Seq<u8> {
    seq![101u8, 117u8, 114u8]
}

/// Drops the `_krw` quote suffix, if present.
pub open spec fn strip_krw(s: Seq<u8>) -> Seq<u8> {
    if s.len() >= 4 && s.skip(s.len() - 4) == krw_suffix() {
        s.take(s.len() - 4)
    } else {
        s
    }
}

pub open spec fn starts_with_eur(s: Seq<u8>) -> bool {
    s.len() >= 3 && s[0] == 101 && s[1] == 117 && s[2] == 114
}

/// Whether `eur` occurs anywhere in `s`.
pub open spec fn has_eur(s: Seq<u8>) -> bool
    decreases s.len(),
{
    if s.len() < 3 {
        false
    } else if starts_with_eur(s) {
        true
    } else {
        has_eur(s.skip(1))
    }
}

/// `s` with every occurrence of `eur` removed, scanning left to right.
pub open spec fn remove_eur(s: Seq<u8>) -> Seq<u8>
    decreases s.len(),
{
    if s.len() < 3 {
        s
    } else if starts_with_eur(s) {
        remove_eur(s.skip(3))
    } else {
        seq![s[0]] + remove_eur(s.skip(1))
    }
}

pub open spec fn code_btc() -> Seq<u8> {
    seq![98u8, 116u8, 99u8]
}

pub open spec fn code_eth() -> Seq<u8> {
    seq![101u8, 116u8, 104u8]
}

pub open spec fn code_xrp() -> Seq<u8> {
    seq![120u8, 114u8, 112u8]
}

pub open spec fn code_doge() -> Seq<u8> {
    seq![100u8, 111u8, 103u8, 101u8]
}

/// The alias table: exchange-specific spellings and the common code each stands for.
pub open spec fn alias_entries() -> Seq<(Seq<u8>, Seq<u8>)> {
    seq![
        (seq![120u8, 120u8, 98u8, 116u8, 122u8], code_btc()),
        (seq![120u8, 98u8, 116u8], code_btc()),
        (seq![120u8, 101u8, 116u8, 104u8, 122u8], code_eth()),
        (seq![120u8, 120u8, 114u8, 112u8, 122u8], code_xrp()),
        (seq![120u8, 100u8, 103u8], code_doge()),
    ]
}

/// The common code of a base-asset spelling: its alias where the table has one,
/// otherwise the spelling itself.
pub open spec fn alias_of(c: Seq<u8>) -> Seq<u8> {
    alias_from(c, 0)
}

pub open spec fn alias_from(c: Seq<u8>, i: int) -> Seq<u8>
    decreases alias_entries().len() - i,
{
    if i < 0 || i >= alias_entries().len() {
        c
    } else if alias_entries()[i].0 == c {
        alias_entries()[i].1
    } else {
        alias_from(c, i + 1)
    }
}

/// The canonical asset code of a raw symbol on an exchange, or `None` where the
/// symbol is not a market this library follows.
pub open spec fn canonical(ex: Exchange, s: Seq<u8>) -> Option<Seq<u8>> {
    match ex {
        Exchange::Korbit => Some(alias_of(strip_krw(lower(s)))),
        Exchange::Kraken => if has_eur(lower(s)) {
            Some(alias_of(remove_eur(lower(s))))
        } else {
            None
        },
    }
}

fn lower_bytes(s: &[u8]) -> (r: Vec<u8>)
    ensures
        r@ == lower(s@),
{
    let mut r: Vec<u8> = Vec::new();
    let mut i: usize = 0;
    while i < s.len()
        invariant
            i <= s@.len(),
            r@ =~= lower(s@).take(i as int),
        decreases s.len() - i,
    {
        let b = s[i];
        let l: u8 = if 65 <= b && b <= 90 {
            b + 32
        } else {
            b
        };
        r.push(l);
        i = i + 1;
        assert(r@ =~= lower(s@).take(i as int));
    }
    r
}

pub(crate) fn bytes_eq(a: &[u8], b: &[u8]) -> (r: bool)
    ensures
        r == (a@ == b@),
{
    if a.len() != b.len() {
        return false;
    }
    let mut i: usize = 0;
    while i < a.len()
        invariant
            i <= a@.len(),
            a@.len() == b@.len(),
            forall|k: int| 0 <= k < i ==> a@[k] == b@[k],
        decreases a.len() - i,
    {
        if a[i] != b[i] {
            return false;
        }
        i = i + 1;
    }
    assert(a@ =~= b@);
    true
}

/// The alias table, as pairs of spelling and common code.
pub fn alias_table() -> (r: Vec<(Vec<u8>, Vec<u8>)>)
    ensures
        r@.len() == alias_entries().len(),
        forall|i: int|
            0 <= i < r@.len() ==> (#[trigger] r@[i]).0@ == alias_entries()[i].0 && r@[i].1@
                == alias_entries()[i].1,
{
    let r = vec![
        (vec![120u8, 120u8, 98u8, 116u8, 122u8], vec![98u8, 116u8, 99u8]),
        (vec![120u8, 98u8, 116u8], vec![98u8, 116u8, 99u8]),
        (vec![120u8, 101u8, 116u8, 104u8, 122u8], vec![101u8, 116u8, 104u8]),
        (vec![120u8, 120u8, 114u8, 112u8, 122u8], vec![120u8, 114u8, 112u8]),
        (vec![120u8, 100u8, 103u8], vec![100u8, 111u8, 103u8, 101u8]),
    ];
    assert(r@[0].0@ =~= alias_entries()[0].0);
    assert(r@[0].1@ =~= alias_entries()[0].1);
    assert(r@[1].0@ =~= alias_entries()[1].0);
    assert(r@[1].1@ =~= alias_entries()[1].1);
    assert(r@[2].0@ =~= alias_entries()[2].0);
    assert(r@[2].1@ =~= alias_entries()[2].1);
    assert(r@[3].0@ =~= alias_entries()[3].0);
    assert(r@[3].1@ =~= alias_entries()[3].1);
    assert(r@[4].0@ =~= alias_entries()[4].0);
    assert(r@[4].1@ =~= alias_entries()[4].1);
    r
}

/// Translates a base-asset spelling through the alias table.
pub fn apply_alias(c: Vec<u8>) -> (r: Vec<u8>)
    ensures
        r@ == alias_of(c@),
{
    let table = alias_table();
    let mut i: usize = 0;
    while i < table.len()
        invariant
            i <= table@.len(),
            table@.len() == alias_entries().len(),
            forall|k: int|
                0 <= k < table@.len() ==> (#[trigger] table@[k]).0@ == alias_entries()[k].0
                    && table@[k].1@ == alias_entries()[k].1,
            alias_of(c@) == alias_from(c@, i as int),
        decreases table.len() - i,
    {
        if bytes_eq(table[i].0.as_slice(), c.as_slice()) {
            return table[i].1.clone();
        }
        i = i + 1;
    }
    c
}

fn strip_krw_bytes(s: Vec<u8>) -> (r: Vec<u8>)
    ensures
        r@ == strip_krw(s@),
{
    let n = s.len();
    if n >= 4 && s[n - 4] == 95 && s[n - 3] == 107 && s[n - 2] == 114 && s[n - 1] == 119 {
        assert(s@.skip(n - 4) =~= krw_suffix());
        let mut r: Vec<u8> = Vec::new();
        let mut i: usize = 0;
        while i < n - 4
            invariant
                n == s@.len(),
                n >= 4,
                i <= n - 4,
                r@ =~= s@.take(i as int),
            decreases n - 4 - i,
        {
            r.push(s[i]);
            i = i + 1;
            assert(r@ =~= s@.take(i as int));
        }
        r
    } else {
        proof {
            if n >= 4 && s@.skip(n - 4) == krw_suffix() {
                assert(s@.skip(n - 4)[0] == s@[n - 4]);
                assert(s@.skip(n - 4)[1] == s@[n - 3]);
                assert(s@.skip(n - 4)[2] == s@[n - 2]);
                assert(s@.skip(n - 4)[3] == s@[n - 1]);
            }
        }
        s
    }
}

proof fn lemma_remove_eur_step(s: Seq<u8>, i: int)
    requires
        0 <= i < s.len(),
    ensures
        s.len() - i < 3 ==> remove_eur(s.skip(i)) == s.skip(i),
        s.len() - i >= 3 && starts_with_eur(s.skip(i)) ==> remove_eur(s.skip(i)) == remove_eur(
            s.skip(i + 3),
        ) && has_eur(s.skip(i)),
        s.len() - i >= 3 && !starts_with_eur(s.skip(i)) ==> remove_eur(s.skip(i)) == seq![s[i]]
            + remove_eur(s.skip(i + 1)) && has_eur(s.skip(i)) == has_eur(s.skip(i + 1)),
{
    if s.len() - i >= 3 {
        assert(s.skip(i).skip(3) =~= s.skip(i + 3));
        assert(s.skip(i).skip(1) =~= s.skip(i + 1));
    }
}

fn remove_eur_bytes(s: &Vec<u8>) -> (r: (Vec<u8>, bool))
    ensures
        r.0@ == remove_eur(s@),
        r.1 == has_eur(s@),
{
    let n = s.len();
    let mut out: Vec<u8> = Vec::new();
    let mut found = false;
    let mut i: usize = 0;
    assert(s@.skip(0) =~= s@);
    while i < n
        invariant
            i <= n,
            n == s@.len(),
            remove_eur(s@) == out@ + remove_eur(s@.skip(i as int)),
            has_eur(s@) == (found || has_eur(s@.skip(i as int))),
        decreases n - i,
    {
        proof {
            lemma_remove_eur_step(s@, i as int);
        }
        if n - i < 3 {
            proof {
                assert(!has_eur(s@.skip(i as int)));
                assert(out@ + s@.skip(i as int) =~= out@ + s@.skip(i as int));
            }
            let mut j: usize = i;
            while j < n
                invariant
                    i <= j <= n,
                    n == s@.len(),
                    remove_eur(s@) == out@ + s@.skip(j as int),
                decreases n - j,
            {
                let ghost before = out@;
                out.push(s[j]);
                assert(before + s@.skip(j as int) =~= out@ + s@.skip(j + 1));
                j = j + 1;
            }
            assert(out@ + s@.skip(n as int) =~= out@);
            return (out, found);
        }
        let at_eur = s[i] == 101 && s[i + 1] == 117 && s[i + 2] == 114;
        assert(at_eur == starts_with_eur(s@.skip(i as int)));
        if at_eur {
            found = true;
            i = i + 3;
        } else {
            let ghost before = out@;
            out.push(s[i]);
            assert(before + (seq![s@[i as int]] + remove_eur(s@.skip(i + 1))) =~= out@
                + remove_eur(s@.skip(i + 1)));
            i = i + 1;
        }
    }
    assert(s@.skip(n as int) =~= Seq::<u8>::empty());
    assert(out@ + remove_eur(s@.skip(n as int)) =~= out@);
    (out, found)
}

/// The canonical asset code of raw symbol `raw` on exchange `ex`.
/// On the home exchange every symbol is a won market: it is lower-cased and its
/// `_krw` suffix dropped. On the other exchange only symbols that hold `eur`
/// (in any case) are euro markets; `eur` is removed from them. The base code is
/// then translated through the alias table. `None` means not a market followed.
pub fn canonicalize(ex: Exchange, raw: &[u8]) -> (r: Option<Vec<u8>>)
    ensures
        r.is_some() == canonical(ex, raw@).is_some(),
        r.is_some() ==> r.unwrap()@ == canonical(ex, raw@).unwrap(),
{
    let l = lower_bytes(raw);
    match ex {
        Exchange::Korbit => {
            let base = strip_krw_bytes(l);
            Some(apply_alias(base))
        },
        Exchange::Kraken => {
            let (base, found) = remove_eur_bytes(&l);
            if found {
                Some(apply_alias(base))
            } else {
                None
            }
        },
    }
}

/// Canonicalization ignores case: a symbol and its lower-cased form have the
/// same canonical code on either exchange.
pub proof fn lemma_canonical_case_insensitive(ex: Exchange, s: Seq<u8>)
    ensures
        canonical(ex, s) == canonical(ex, lower(s)),
{
    assert(lower(lower(s)) =~= lower(s));
}

/// Translating through the alias table is idempotent: a common code that the
/// table produces is left as it is.
pub proof fn lemma_alias_idempotent(c: Seq<u8>)
    ensures
        alias_of(alias_of(c)) == alias_of(c),
{
    reveal_with_fuel(alias_from, 6);
    let e = alias_entries();
    assert(e[0].0 != code_btc() && e[1].0 != code_btc() && e[2].0 != code_btc() && e[3].0
        != code_btc() && e[4].0 != code_btc()) by {
        assert(e[0].0.len() != 3 && e[2].0.len() != 3 && e[3].0.len() != 3);
        assert(e[1].0[0] != code_btc()[0] && e[4].0[0] != code_btc()[0]);
    }
    assert(e[0].0 != code_eth() && e[1].0 != code_eth() && e[2].0 != code_eth() && e[3].0
        != code_eth() && e[4].0 != code_eth()) by {
        assert(e[0].0.len() != 3 && e[2].0.len() != 3 && e[3].0.len() != 3);
        assert(e[1].0[0] != code_eth()[0] && e[4].0[0] != code_eth()[0]);
    }
    assert(e[0].0 != code_xrp() && e[1].0 != code_xrp() && e[2].0 != code_xrp() && e[3].0
        != code_xrp() && e[4].0 != code_xrp()) by {
        assert(e[0].0.len() != 3 && e[2].0.len() != 3 && e[3].0.len() != 3);
        assert(e[1].0[1] != code_xrp()[1] && e[4].0[1] != code_xrp()[1]);
    }
    assert(e[0].0 != code_doge() && e[1].0 != code_doge() && e[2].0 != code_doge() && e[3].0
        != code_doge() && e[4].0 != code_doge()) by {
        assert(e[0].0.len() != 4 && e[1].0.len() != 4 && e[2].0.len() != 4);
        assert(e[3].0.len() != 4 && e[4].0.len() != 4);
    }
}

} // verus!
