//! Rendering reconciled records as journal blocks.
//!
//! Each reconciled record becomes one plain-text block: a date and
//! narration line, then indented `account  amount currency` postings in
//! fixed-width columns. Display names come from a read-only registry of
//! symbol-to-name entries; a missing symbol is a fatal error. Prices and
//! cash amounts show at least two fraction digits; share quantities show
//! their exact value with no padding.

use vstd::prelude::*;
use vstd::string::StringExecFns;
use vstd::string::StrSliceExecFns;
use crate::decimal::{Decimal, pow10, dec_norm, lemma_dec_norm, lemma_pow10_values, representable, product_fits};
use crate::activity::{TradeActivity, NonTradeActivity, NonTradeKind, Side};
use crate::date::spec_format_date;
use crate::fees::{has_taf, has_reg, is_adr, has_money, acq_lit, money_mantissa, money_scale};
use crate::text::{
    spec_digits,
    left_pad,
    right_pad,
    char_repeat,
    append_digits,
    append_padded_digits,
    append_zeros,
    append_spaces,
    str_eq,
};
use crate::error::Error;

verus! {

/// A read-only mapping from ticker symbol to display name. Lookups return
/// the first entry whose symbol matches.
pub struct Registry {
    entries: Vec<(String, String)>,
}

/// The name the entries from index `i` on give to `sym`.
pub open spec fn lookup_from(es: Seq<(String, String)>, sym: Seq<char>, i: int) -> Option<
    Seq<char>,
>
    decreases es.len() - i,
{
    if 0 <= i < es.len() {
        if es[i].0@ == sym {
            Some(es[i].1@)
        } else {
            lookup_from(es, sym, i + 1)
        }
    } else {
        None
    }
}

impl View for Registry {
    type V = Seq<(String, String)>;

    closed spec fn view(&self) -> Seq<(String, String)> {
        self.entries@
    }
}

impl Registry {
    /// The name this registry gives to `sym`.
    pub open spec fn spec_get(self, sym: Seq<char>) -> Option<Seq<char>> {
        lookup_from(self@, sym, 0)
    }

    /// An empty registry.
    pub fn new() -> (r: Registry)
        ensures
            r@ == Seq::<(String, String)>::empty(),
    {
        Registry { entries: Vec::new() }
    }

    /// Add an entry at the end; earlier entries take precedence.
    pub fn insert(&mut self, symbol: String, name: String)
        ensures
            final(self)@ == old(self)@.push((symbol, name)),
    {
        self.entries.push((symbol, name));
    }

    /// Look `sym` up.
    pub fn get(&self, sym: &str) -> (r: Option<&String>)
        ensures
            r is Some <==> self.spec_get(sym@) is Some,
            r matches Some(name) ==> Some(name@) == self.spec_get(sym@),
    {
        let n = self.entries.len();
        let mut i: usize = 0;
        while i < n
            invariant
                i <= n,
                n == self.entries@.len(),
                lookup_from(self@, sym@, 0) == lookup_from(self@, sym@, i as int),
            decreases n - i,
        {
            if str_eq(self.entries[i].0.as_str(), sym) {
                return Some(&self.entries[i].1);
            }
            i = i + 1;
        }
        None
    }
}

/// The exact decimal rendering of the amount `v` (in billionths): sign,
/// units, and the fraction digits when there are any.
pub open spec fn spec_plain_amount(v: int) -> Seq<char> {
    let a = if v < 0 {
        -v
    } else {
        v
    };
    let units = a / pow10(9);
    let frac9 = a % pow10(9);
    let sign: Seq<char> = if v < 0 {
        seq!['-']
    } else {
        Seq::empty()
    };
    if frac9 == 0 {
        sign + spec_digits(units as nat)
    } else {
        sign + spec_digits(units as nat) + seq!['.'] + spec_frac_digits(frac9)
    }
}

/// The fraction digits of a nonzero fraction (in billionths), trailing
/// zeros trimmed, leading zeros kept.
pub open spec fn spec_frac_digits(frac9: int) -> Seq<char> {
    let m = dec_norm(frac9, 9).0;
    let e = dec_norm(frac9, 9).1;
    left_pad(spec_digits(m as nat), '0', e)
}

/// The amount `v` with at least two fraction digits, as prices and cash
/// amounts are shown.
pub open spec fn spec_min2_amount(v: int) -> Seq<char> {
    let a = if v < 0 {
        -v
    } else {
        v
    };
    let units = a / pow10(9);
    let frac9 = a % pow10(9);
    let sign: Seq<char> = if v < 0 {
        seq!['-']
    } else {
        Seq::empty()
    };
    if frac9 == 0 {
        sign + spec_digits(units as nat) + seq!['.'] + char_repeat('0', 2)
    } else {
        sign + spec_digits(units as nat) + seq!['.'] + right_pad(spec_frac_digits(frac9), '0', 2)
    }
}

/// An amount with its currency, as one posting shows it.
pub open spec fn spec_price(v: int, currency: Seq<char>) -> Seq<char> {
    spec_min2_amount(v) + seq![' '] + currency
}

/// Split the magnitude of an amount into units and fraction, and reduce
/// the fraction.
fn amount_parts(d: &Decimal) -> (r: (bool, u128, u128, u128, u32))
    ensures
        ({
            let a = if d@ < 0 {
                -d@
            } else {
                d@
            };
            &&& r.0 == (d@ < 0)
            &&& r.1 as int == a / pow10(9)
            &&& r.2 as int == a % pow10(9)
            &&& r.3 as int == dec_norm(a % pow10(9), 9).0
            &&& r.4 as nat == dec_norm(a % pow10(9), 9).1
        }),
{
    proof {
        use_type_invariant(d);
        d.lemma_view_representable();
        lemma_pow10_values();
    }
    let v = d.val9();
    let neg = v < 0;
    let a: u128 = if neg {
        (-v) as u128
    } else {
        v as u128
    };
    let units = a / 1_000_000_000;
    let frac9 = a % 1_000_000_000;
    let mut fm = frac9;
    let mut fs: u32 = 9;
    while fs > 0 && fm % 10 == 0
        invariant
            dec_norm(frac9 as int, 9) == dec_norm(fm as int, fs as nat),
            fm <= frac9,
        decreases fs,
    {
        proof {
            vstd::arithmetic::div_mod::lemma_fundamental_div_mod(fm as int, 10);
        }
        fm = fm / 10;
        fs = fs - 1;
    }
    proof {
        assert(dec_norm(fm as int, fs as nat) == (fm as int, fs as nat));
    }
    (neg, units, frac9, fm, fs)
}

/// Append the exact decimal rendering of the amount.
pub fn append_plain_amount(d: &Decimal, out: &mut String)
    ensures
        final(out)@ == old(out)@ + spec_plain_amount(d@),
{
    let (neg, units, frac9, fm, fs) = amount_parts(d);
    if neg {
        out.append("-");
    }
    append_digits(out, units);
    if frac9 != 0 {
        out.append(".");
        append_padded_digits(out, fm, fs as usize);
    }
    proof {
        reveal_strlit("-");
        reveal_strlit(".");
        assert("-"@ =~= seq!['-']);
        assert("."@ =~= seq!['.']);
        assert(out@ =~= old(out)@ + spec_plain_amount(d@));
    }
}

/// Append the amount with at least two fraction digits.
pub fn append_min2_amount(d: &Decimal, out: &mut String)
    ensures
        final(out)@ == old(out)@ + spec_min2_amount(d@),
{
    let (neg, units, frac9, fm, fs) = amount_parts(d);
    if neg {
        out.append("-");
    }
    append_digits(out, units);
    out.append(".");
    if frac9 == 0 {
        append_zeros(out, 2);
    } else {
        append_padded_digits(out, fm, fs as usize);
        proof {
            // The reduced fraction shows exactly `fs` digits.
            lemma_pow10_values();
            let av = if d@ < 0 { -d@ } else { d@ };
            vstd::arithmetic::div_mod::lemma_mod_bound(av, pow10(9));
            lemma_frac_width(frac9 as int);
            // A nonzero fraction keeps a nonzero scale.
            lemma_dec_norm(frac9 as int, 9);
            if fs == 0 {
                assert(frac9 as int == fm as int * pow10(9));
                assert(fm as int * pow10(9) >= pow10(9)) by (nonlinear_arith)
                    requires fm >= 1 && pow10(9) >= 1;
                assert(false);
            }
        }
        if fs < 2 {
            append_zeros(out, 2 - (fs as usize));
        }
    }
    proof {
        reveal_strlit("-");
        reveal_strlit(".");
        assert("-"@ =~= seq!['-']);
        assert("."@ =~= seq!['.']);
        assert(out@ =~= old(out)@ + spec_min2_amount(d@));
    }
}

/// A nonzero reduced fraction of `frac9` shows exactly its scale's many
/// digits.
proof fn lemma_frac_width(frac9: int)
    requires
        0 < frac9 < pow10(9),
    ensures
        spec_frac_digits(frac9).len() == if dec_norm(frac9, 9).1 == 0 {
            1int
        } else {
            dec_norm(frac9, 9).1 as int
        },
{
    lemma_dec_norm(frac9, 9);
    let m = dec_norm(frac9, 9).0;
    let e = dec_norm(frac9, 9).1;
    crate::text::lemma_spec_digits(m as nat);
    lemma_pow10_values();
    // frac9 == m * 10^(9 - e) < 10^9, so m < 10^e.
    crate::decimal::lemma_pow10_adds(e, (9 - e) as nat);
    crate::decimal::lemma_pow10_pos((9 - e) as nat);
    crate::decimal::lemma_pow10_pos(e);
    assert(m < pow10(e)) by (nonlinear_arith)
        requires
            m * pow10((9 - e) as nat) < pow10(9),
            pow10(9) == pow10(e) * pow10((9 - e) as nat),
            pow10((9 - e) as nat) >= 1,
            m >= 0,
    ;
    if e > 0 {
        crate::text::lemma_spec_digits_len_bound(m as nat, e);
    } else {
        crate::text::lemma_spec_digits_len_bound(m as nat, 1);
    }
}

/// Format an amount with its currency, at least two fraction digits.
pub fn format_price(price: &Decimal, currency: &str) -> (r: String)
    ensures
        r@ == spec_price(price@, currency@),
{
    let mut out = String::new();
    append_min2_amount(price, &mut out);
    out.append(" ");
    out.append(currency);
    proof {
        reveal_strlit(" ");
        assert(" "@ =~= seq![' ']);
        assert(out@ =~= spec_price(price@, currency@));
    }
    out
}

/// Append `piece` left-padded with spaces to `width`, as a right-aligned
/// column.
pub fn append_right_aligned(out: &mut String, piece: &str, width: usize)
    ensures
        final(out)@ == old(out)@ + left_pad(piece@, ' ', width as nat),
{
    let len = piece.unicode_len();
    if len < width {
        append_spaces(out, width - len);
    }
    out.append(piece);
    proof {
        assert(out@ =~= old(out)@ + left_pad(piece@, ' ', width as nat));
    }
}

/// Append `piece` right-padded with spaces to `width`, as a left-aligned
/// column.
pub fn append_left_aligned(out: &mut String, piece: &str, width: usize)
    ensures
        final(out)@ == old(out)@ + right_pad(piece@, ' ', width as nat),
{
    out.append(piece);
    let len = piece.unicode_len();
    if len < width {
        append_spaces(out, width - len);
    }
    proof {
        assert(out@ =~= old(out)@ + right_pad(piece@, ' ', width as nat));
    }
}

/// The sign of a trade's share movement: buying adds shares, selling and
/// short selling remove them.
pub open spec fn side_sign(side: Side) -> int {
    if side is Buy {
        1
    } else {
        -1
    }
}

/// The account a classified fee debits.
pub open spec fn fee_account(
    d: Seq<char>,
    brokerage_fee: Seq<char>,
    sec_fee: Seq<char>,
    finra_taf: Seq<char>,
) -> Seq<char> {
    if has_taf(d) {
        finra_taf
    } else if has_reg(d) {
        sec_fee
    } else {
        brokerage_fee
    }
}

/// The sum of the net amounts of the first `n` fees, in billionths.
pub open spec fn fee_sum(fees: Seq<NonTradeActivity>, n: int) -> int
    decreases n,
{
    if n <= 0 {
        0
    } else {
        fee_sum(fees, n - 1) + fees[n - 1].net_amount@
    }
}

/// The posting lines of the first `n` fees of a trade: a comment carrying
/// the description, then the debit against the fee's account.
pub open spec fn spec_fee_lines(
    fees: Seq<NonTradeActivity>,
    n: int,
    brokerage_fee: Seq<char>,
    sec_fee: Seq<char>,
    finra_taf: Seq<char>,
    currency: Seq<char>,
) -> Seq<char>
    decreases n,
{
    if n <= 0 {
        Seq::empty()
    } else {
        let f = fees[n - 1];
        let d = f.description->Some_0@;
        spec_fee_lines(fees, n - 1, brokerage_fee, sec_fee, finra_taf, currency) + "  ; "@ + d
            + "\n  "@ + right_pad(fee_account(d, brokerage_fee, sec_fee, finra_taf), ' ', 51)
            + "    "@ + left_pad(spec_price(-f.net_amount@, currency), ' ', 15) + "\n"@
    }
}

/// A trade's journal block: the date and display name, the share posting
/// against the investment account, one posting per attached fee, and the
/// balancing cash posting against the brokerage account.
pub open spec fn spec_render_trade(
    t: TradeActivity,
    fees: Seq<NonTradeActivity>,
    name: Seq<char>,
    investment: Seq<char>,
    brokerage: Seq<char>,
    brokerage_fee: Seq<char>,
    sec_fee: Seq<char>,
    finra_taf: Seq<char>,
    currency: Seq<char>,
) -> Seq<char> {
    let mult = side_sign(t.side);
    let prod9 = (t.price@ * t.quantity@) / pow10(9);
    let total = -mult * prod9 + fee_sum(fees, fees.len() as int);
    spec_format_date(t.date) + " * "@ + name + "\n  "@ + right_pad(investment, ' ', 51) + "  "@
        + left_pad(spec_plain_amount(mult * t.quantity@), ' ', 13) + " "@ + t.symbol@ + " @ "@
        + spec_price(t.price@, currency) + "\n"@ + spec_fee_lines(
        fees,
        fees.len() as int,
        brokerage_fee,
        sec_fee,
        finra_taf,
        currency,
    ) + "  "@ + right_pad(brokerage, ' ', 51) + "    "@ + left_pad(
        spec_price(total, currency),
        ' ',
        15,
    ) + "\n\n"@
}

/// The first failure among a trade's fees, in order: a missing or
/// unclassifiable description, or a running fee total that leaves the
/// representable range.
pub open spec fn first_fee_err(fees: Seq<NonTradeActivity>, n: int) -> Option<Error>
    decreases n,
{
    if n <= 0 {
        None
    } else if first_fee_err(fees, n - 1) is Some {
        first_fee_err(fees, n - 1)
    } else {
        let f = fees[n - 1];
        if f.description is None {
            Some(Error::FeeWithoutDescription)
        } else if !has_taf(f.description->Some_0@) && !has_reg(f.description->Some_0@) && !is_adr(
            f.description->Some_0@,
        ) {
            Some(Error::UnclassifiableFee(f.description->Some_0))
        } else if !representable(-fee_sum(fees, n)) {
            Some(Error::AmountOutOfRange)
        } else {
            None
        }
    }
}

/// Whether the trade's block renders: the symbol is known, the product and
/// every running amount stay representable, and each fee classifies.
pub open spec fn render_trade_ok(
    t: TradeActivity,
    fees: Seq<NonTradeActivity>,
    registry: Registry,
) -> bool {
    &&& registry.spec_get(t.symbol@) is Some
    &&& product_fits(t.price@, t.quantity@)
    &&& first_fee_err(fees, fees.len() as int) is None
    &&& representable(
        -side_sign(t.side) * ((t.price@ * t.quantity@) / pow10(9)) + fee_sum(
            fees,
            fees.len() as int,
        ),
    )
}

/// The error a failing trade block reports: the unknown symbol, an
/// out-of-range amount, or its first failing fee's error, in the order the
/// block is built.
pub open spec fn render_trade_err(
    t: TradeActivity,
    fees: Seq<NonTradeActivity>,
    registry: Registry,
) -> Error {
    if registry.spec_get(t.symbol@) is None {
        Error::UnknownSymbol(t.symbol)
    } else if !product_fits(t.price@, t.quantity@) {
        Error::AmountOutOfRange
    } else if first_fee_err(fees, fees.len() as int) is Some {
        first_fee_err(fees, fees.len() as int)->Some_0
    } else {
        Error::AmountOutOfRange
    }
}

/// Append the fee postings of a trade, accumulating the fee total (the
/// negated sum of the fees' net amounts). Stops at the first fee that does
/// not classify or whose running total leaves the representable range; the
/// output string is then meaningless and the caller discards it.
#[verifier::loop_isolation(false)]
fn append_fee_lines(
    out: &mut String,
    fees: &Vec<NonTradeActivity>,
    brokerage_fee_account: &str,
    sec_fee_account: &str,
    finra_taf_account: &str,
    currency: &str,
) -> (r: Result<Decimal, Error>)
    ensures
        r is Ok <==> first_fee_err(fees@, fees@.len() as int) is None,
        r matches Ok(total) ==> total@ == -fee_sum(fees@, fees@.len() as int) && final(out)@
            == old(out)@ + spec_fee_lines(
            fees@,
            fees@.len() as int,
            brokerage_fee_account@,
            sec_fee_account@,
            finra_taf_account@,
            currency@,
        ),
        r matches Err(e) ==> Some(e) == first_fee_err(fees@, fees@.len() as int),
{
    let mut total_fees = match Decimal::from_val9(0) {
        Some(z) => z,
        None => {
            proof {
                lemma_dec_norm(0, 9);
                assert(false);
            }
            return Err(Error::AmountOutOfRange);
        },
    };
    let nf = fees.len();
    let mut k: usize = 0;
    while k < nf
        invariant
            k <= nf,
            nf == fees@.len(),
            first_fee_err(fees@, k as int) is None,
            total_fees@ == -fee_sum(fees@, k as int),
            out@ == old(out)@ + spec_fee_lines(
                fees@,
                k as int,
                brokerage_fee_account@,
                sec_fee_account@,
                finra_taf_account@,
                currency@,
            ),
        decreases nf - k,
    {
        let fee = &fees[k];
        proof {
            use_type_invariant(&fee.net_amount);
        }
        let (to, desc) = match crate::fees::classify_fee(
            fee,
            brokerage_fee_account,
            sec_fee_account,
            finra_taf_account,
        ) {
            Ok(p) => p,
            Err(e) => {
                proof {
                    assert(first_fee_err(fees@, k as int + 1) is Some);
                    lemma_first_fee_err_stable(fees@, k as int + 1, nf as int);
                }
                return Err(e);
            },
        };
        let neg_net = fee.net_amount.neg();
        out.append("  ; ");
        out.append(desc);
        out.append("\n  ");
        append_left_aligned(out, to, 51);
        out.append("    ");
        let fee_piece = format_price(&neg_net, currency);
        append_right_aligned(out, fee_piece.as_str(), 15);
        out.append("\n");
        total_fees = match total_fees.add(&neg_net) {
            Some(t) => t,
            None => {
                proof {
                    assert(!representable(-fee_sum(fees@, k as int + 1)));
                    assert(first_fee_err(fees@, k as int + 1) is Some);
                    lemma_first_fee_err_stable(fees@, k as int + 1, nf as int);
                }
                return Err(Error::AmountOutOfRange);
            },
        };
        proof {
            assert(out@ =~= old(out)@ + spec_fee_lines(
                fees@,
                k as int + 1,
                brokerage_fee_account@,
                sec_fee_account@,
                finra_taf_account@,
                currency@,
            ));
        }
        k = k + 1;
    }
    Ok(total_fees)
}

/// Render a trade and its fees as one journal block.
#[verifier::loop_isolation(false)]
#[verifier::rlimit(100)]
pub fn render_trade(
    trade: &TradeActivity,
    fees: &Vec<NonTradeActivity>,
    investment_account: &str,
    brokerage_account: &str,
    brokerage_fee_account: &str,
    sec_fee_account: &str,
    finra_taf_account: &str,
    registry: &Registry,
    currency: &str,
) -> (r: Result<String, Error>)
    ensures
        r is Ok <==> render_trade_ok(*trade, fees@, *registry),
        r matches Ok(out) ==> out@ == spec_render_trade(
            *trade,
            fees@,
            registry.spec_get(trade.symbol@)->Some_0,
            investment_account@,
            brokerage_account@,
            brokerage_fee_account@,
            sec_fee_account@,
            finra_taf_account@,
            currency@,
        ),
        r matches Err(e) ==> e == render_trade_err(*trade, fees@, *registry),
{
    let name = match registry.get(trade.symbol.as_str()) {
        Some(name) => name,
        None => {
            return Err(Error::UnknownSymbol(trade.symbol.clone()));
        },
    };
    proof {
        use_type_invariant(&trade.price);
        use_type_invariant(&trade.quantity);
    }
    let mult_buy = match trade.side {
        Side::Buy => true,
        Side::Sell => false,
        Side::ShortSell => false,
    };
    let prod = match trade.price.mul(&trade.quantity) {
        Some(p) => p,
        None => {
            return Err(Error::AmountOutOfRange);
        },
    };
    proof {
        // prod holds the proceeds: prod@ == (price@ * quantity@) / 10^9.
        lemma_pow10_values();
        vstd::arithmetic::div_mod::lemma_fundamental_div_mod_converse(
            trade.price@ * trade.quantity@,
            pow10(9),
            prod@,
            0,
        );
    }
    let mut out = String::new();
    trade.date.append_format(&mut out);
    proof {
        assert(out@ =~= spec_format_date(trade.date));
    }
    out.append(" * ");
    out.append(name.as_str());
    out.append("\n  ");
    proof {
        assert(out@ =~= spec_format_date(trade.date) + " * "@ + registry.spec_get(
            trade.symbol@,
        )->Some_0 + "\n  "@);
    }
    append_left_aligned(&mut out, investment_account, 51);
    out.append("  ");
    let qty_signed = if mult_buy {
        trade.quantity
    } else {
        trade.quantity.neg()
    };
    let mut qty_piece = String::new();
    append_plain_amount(&qty_signed, &mut qty_piece);
    proof {
        if mult_buy {
            assert(qty_signed@ == trade.quantity@);
            assert(1int * trade.quantity@ == trade.quantity@) by (nonlinear_arith);
        } else {
            assert(qty_signed@ == -trade.quantity@);
            assert((-1int) * trade.quantity@ == -trade.quantity@) by (nonlinear_arith);
        }
        assert(qty_signed@ == side_sign(trade.side) * trade.quantity@);
        assert(qty_piece@ =~= spec_plain_amount(side_sign(trade.side) * trade.quantity@));
    }
    append_right_aligned(&mut out, qty_piece.as_str(), 13);
    out.append(" ");
    out.append(trade.symbol.as_str());
    out.append(" @ ");
    let price_piece = format_price(&trade.price, currency);
    out.append(price_piece.as_str());
    out.append("\n");
    let ghost header = out@;
    proof {
        assert(header =~= spec_format_date(trade.date) + " * "@ + registry.spec_get(
            trade.symbol@,
        )->Some_0 + "\n  "@ + right_pad(investment_account@, ' ', 51) + "  "@ + left_pad(
            spec_plain_amount(side_sign(trade.side) * trade.quantity@),
            ' ',
            13,
        ) + " "@ + trade.symbol@ + " @ "@ + spec_price(trade.price@, currency@) + "\n"@);
    }

    // The fee postings, accumulating the fee total.
    let total_fees = match append_fee_lines(
        &mut out,
        fees,
        brokerage_fee_account,
        sec_fee_account,
        finra_taf_account,
        currency,
    ) {
        Ok(t) => t,
        Err(e) => {
            return Err(e);
        },
    };

    // The balancing cash posting.
    let signed_prod = if mult_buy {
        prod.neg()
    } else {
        prod
    };
    proof {
        assert(signed_prod@ == -side_sign(trade.side) * ((trade.price@ * trade.quantity@)
            / pow10(9)));
    }
    let total = match signed_prod.sub(&total_fees) {
        Some(t) => t,
        None => {
            proof {
                assert(!representable(
                    -side_sign(trade.side) * ((trade.price@ * trade.quantity@) / pow10(9))
                        + fee_sum(fees@, fees@.len() as int),
                ));
            }
            return Err(Error::AmountOutOfRange);
        },
    };
    let ghost body = spec_fee_lines(
        fees@,
        fees@.len() as int,
        brokerage_fee_account@,
        sec_fee_account@,
        finra_taf_account@,
        currency@,
    );
    out.append("  ");
    append_left_aligned(&mut out, brokerage_account, 51);
    out.append("    ");
    let total_piece = format_price(&total, currency);
    append_right_aligned(&mut out, total_piece.as_str(), 15);
    out.append("\n\n");
    proof {
        assert(total@ == -side_sign(trade.side) * ((trade.price@ * trade.quantity@) / pow10(9))
            + fee_sum(fees@, fees@.len() as int));
        assert(out@ =~= header + body + "  "@ + right_pad(brokerage_account@, ' ', 51) + "    "@
            + left_pad(spec_price(total@, currency@), ' ', 15) + "\n\n"@);
        assert(out@ =~= spec_render_trade(
            *trade,
            fees@,
            registry.spec_get(trade.symbol@)->Some_0,
            investment_account@,
            brokerage_account@,
            brokerage_fee_account@,
            sec_fee_account@,
            finra_taf_account@,
            currency@,
        ));
    }
    Ok(out)
}

/// The amount (in billionths) that the fraction `mant / 10^scale` denotes;
/// meaningful when it reduces to at most nine fraction digits.
pub open spec fn frac_val9(mant: int, scale: nat) -> int {
    dec_norm(mant, scale).0 * pow10((9 - dec_norm(mant, scale).1) as nat)
}

/// Whether `mant / 10^scale` fits a canonical decimal.
pub open spec fn frac_fits(mant: int, scale: nat) -> bool {
    &&& dec_norm(mant, scale).1 <= 9
    &&& -crate::decimal::MAX_MANTISSA < dec_norm(mant, scale).0
    &&& dec_norm(mant, scale).0 < crate::decimal::MAX_MANTISSA
}

/// Extract the share price from an acquisition record's description, of
/// the form `Cash Merger $P` with `P` digits, a point, digits.
pub fn extract_acquisition_share_price(non_trade: &NonTradeActivity) -> (r: Result<Decimal, Error>)
    ensures
        r is Ok <==> (non_trade.description matches Some(d) && has_money(d@, acq_lit())
            && money_mantissa(d@, acq_lit()) <= i128::MAX && frac_fits(
            money_mantissa(d@, acq_lit()),
            money_scale(d@, acq_lit()) as nat,
        )),
        r matches Ok(p) ==> {
            let d = non_trade.description->Some_0;
            p@ * pow10(money_scale(d@, acq_lit()) as nat) == money_mantissa(d@, acq_lit()) * pow10(
                9,
            )
        },
        r matches Err(e) ==> match e {
            Error::AcquisitionWithoutDescription => non_trade.description is None,
            Error::AcquisitionUnparsable(d0) => non_trade.description matches Some(d) && d0 == d
                && !has_money(d@, acq_lit()),
            Error::AmountOutOfRange => non_trade.description matches Some(d) && has_money(
                d@,
                acq_lit(),
            ),
            _ => false,
        },
{
    let desc = match &non_trade.description {
        Some(d) => d,
        None => {
            return Err(Error::AcquisitionWithoutDescription);
        },
    };
    let ds = desc.as_str();
    let found = crate::fees::find_money(ds, "Cash Merger $");
    proof {
        assert("Cash Merger $"@ == acq_lit());
    }
    let (dj, dk1, dk2) = match found {
        Some(t) => t,
        None => {
            return Err(Error::AcquisitionUnparsable(desc.clone()));
        },
    };
    let digits = crate::fees::money_digits_string(ds, dj, dk1, dk2);
    let f = dk2 - (dk1 + 1);
    proof {
        assert(digits@ == crate::fees::money_digits(ds@, acq_lit()));
        assert(f as int == money_scale(ds@, acq_lit()));
        crate::text::lemma_run_end(ds@, dj as int);
        crate::text::lemma_run_end(ds@, dk1 as int + 1);
        assert(crate::text::all_digits(digits@)) by {
            assert(forall|m: int|
                dj <= m < dk1 ==> crate::text::is_digit(#[trigger] ds@[m]));
            assert(forall|m: int|
                dk1 + 1 <= m < dk2 ==> crate::text::is_digit(#[trigger] ds@[m]));
            assert(forall|m: int|
                0 <= m < digits@.len() ==> crate::text::is_digit(#[trigger] digits@[m])) by {
                assert(forall|m: int|
                    0 <= m < dk1 - dj ==> #[trigger] digits@[m] == ds@[dj + m]);
                assert(forall|m: int|
                    dk1 - dj <= m < digits@.len() ==> #[trigger] digits@[m] == ds@[m - (dk1 - dj)
                        + dk1 + 1]);
            }
        }
        crate::text::lemma_digits_val_nonneg(digits@);
    }
    let mant = match crate::text::parse_digits(digits.as_str(), 0, digits.unicode_len()) {
        Some(v) => v,
        None => {
            proof {
                assert(digits@.subrange(0, digits@.len() as int) =~= digits@);
            }
            return Err(Error::AmountOutOfRange);
        },
    };
    proof {
        assert(digits@.subrange(0, digits@.len() as int) =~= digits@);
        assert(mant as int == money_mantissa(ds@, acq_lit()));
    }
    if mant == 0 {
        proof {
            crate::decimal::lemma_dec_norm_zero(f as nat);
            crate::decimal::lemma_dec_norm_zero(9);
        }
        let z = match Decimal::from_val9(0) {
            Some(z) => z,
            None => {
                proof {
                    assert(false);
                }
                return Err(Error::AmountOutOfRange);
            },
        };
        proof {
            assert(z@ * pow10(f as nat) == 0int * pow10(9)) by (nonlinear_arith)
                requires z@ == 0;
        }
        return Ok(z);
    }
    if f > 47 {
        proof {
            // A nonzero mantissa below 10^39 cannot push more than 38
            // trailing zeros into the scale; 9 more digits never fit.
            lemma_dec_norm(mant as int, f as nat);
            lemma_pow10_values();
            if dec_norm(mant as int, f as nat).1 <= 9 {
                let m0 = dec_norm(mant as int, f as nat).0;
                let stripped = (f as nat - dec_norm(mant as int, f as nat).1) as nat;
                crate::decimal::lemma_pow10_increases(39, stripped);
                assert(mant as int >= pow10(stripped)) by (nonlinear_arith)
                    requires
                        mant as int == m0 * pow10(stripped),
                        m0 >= 1,
                        pow10(stripped) >= 1,
                ;
                assert(false);
            }
        }
        return Err(Error::AmountOutOfRange);
    }
    match Decimal::new(mant, f as u32) {
        Some(d) => Ok(d),
        None => Err(Error::AmountOutOfRange),
    }
}

/// The broker's display name in narration lines.
pub open spec fn broker_name() -> Seq<char> {
    "Alpaca Securities LLC"@
}

/// The optional description comment appended to a narration line.
pub open spec fn desc_frag(o: Option<String>) -> Seq<char> {
    match o {
        Some(d) => "\n  ; "@ + d@,
        None => Seq::empty(),
    }
}

/// A cash transfer's block.
pub open spec fn spec_render_transfer(
    n: NonTradeActivity,
    brokerage: Seq<char>,
    currency: Seq<char>,
) -> Seq<char> {
    spec_format_date(n.date) + " * Transfer"@ + desc_frag(n.description) + "\n  "@ + right_pad(
        brokerage,
        ' ',
        51,
    ) + "    "@ + left_pad(spec_price(n.net_amount@, currency), ' ', 15) + "\n  XXX\n\n"@
}

/// An interest payment's block.
pub open spec fn spec_render_interest(
    n: NonTradeActivity,
    brokerage: Seq<char>,
    currency: Seq<char>,
) -> Seq<char> {
    spec_format_date(n.date) + " * "@ + broker_name() + desc_frag(n.description)
        + "\n  Income:Interest\n  "@ + right_pad(brokerage, ' ', 51) + "    "@ + left_pad(
        spec_price(n.net_amount@, currency),
        ' ',
        15,
    ) + "\n\n"@
}

/// A dividend's block.
pub open spec fn spec_render_dividend(
    n: NonTradeActivity,
    name: Seq<char>,
    dividend: Seq<char>,
    brokerage: Seq<char>,
    currency: Seq<char>,
) -> Seq<char> {
    spec_format_date(n.date) + " * "@ + name + "\n  "@ + dividend + "\n  "@ + right_pad(
        brokerage,
        ' ',
        51,
    ) + "    "@ + left_pad(spec_price(n.net_amount@, currency), ' ', 15) + "\n\n"@
}

/// A pass-through charge's block.
pub open spec fn spec_render_passthru(
    n: NonTradeActivity,
    brokerage_fee: Seq<char>,
    brokerage: Seq<char>,
    currency: Seq<char>,
) -> Seq<char> {
    spec_format_date(n.date) + " * "@ + broker_name() + desc_frag(n.description) + "\n  "@
        + brokerage_fee + "\n  "@ + right_pad(brokerage, ' ', 51) + "    "@ + left_pad(
        spec_price(n.net_amount@, currency),
        ' ',
        15,
    ) + "\n\n"@
}

/// A standalone fee's block.
pub open spec fn spec_render_standalone_fee(
    n: NonTradeActivity,
    brokerage: Seq<char>,
    brokerage_fee: Seq<char>,
    sec_fee: Seq<char>,
    finra_taf: Seq<char>,
    currency: Seq<char>,
) -> Seq<char> {
    let d = n.description->Some_0@;
    spec_format_date(n.date) + " * "@ + broker_name() + "\n  ; "@ + d + "\n  "@ + right_pad(
        fee_account(d, brokerage_fee, sec_fee, finra_taf),
        ' ',
        51,
    ) + "    "@ + left_pad(spec_price(-n.net_amount@, currency), ' ', 15) + "\n  "@ + brokerage
        + "\n\n"@
}

/// An acquisition's block: a synthetic trade zeroing the position, with
/// the share price `sharep` extracted from the description and the implied
/// quantity `qty`, both in billionths.
pub open spec fn spec_render_acquisition(
    n: NonTradeActivity,
    name: Seq<char>,
    sharep: int,
    qty: int,
    investment: Seq<char>,
    brokerage: Seq<char>,
    currency: Seq<char>,
) -> Seq<char> {
    let sym = n.symbol->Some_0@;
    "; "@ + name + " got acquired\n"@ + spec_format_date(n.date) + " * "@ + name + "\n  "@
        + right_pad(investment, ' ', 51) + "  "@ + left_pad(spec_plain_amount(qty), ' ', 13)
        + " "@ + sym + " @ "@ + spec_price(sharep, currency) + " = 0 "@ + sym + "\n  "@
        + right_pad(brokerage, ' ', 51) + "    "@ + left_pad(
        spec_price(n.net_amount@, currency),
        ' ',
        15,
    ) + "\n\n"@
}

/// A stock split's block: the split shares move at the reported price.
pub open spec fn spec_render_split(
    n: NonTradeActivity,
    name: Seq<char>,
    investment: Seq<char>,
    brokerage: Seq<char>,
    currency: Seq<char>,
) -> Seq<char> {
    let sym = n.symbol->Some_0@;
    let p = n.price->Some_0@;
    let q = n.quantity->Some_0@;
    let total = (p * q) / pow10(9);
    spec_format_date(n.date) + " * "@ + name + "\n  ; Stock split"@ + desc_frag(n.description)
        + "\n  "@ + right_pad(investment, ' ', 51) + "  "@ + left_pad(spec_plain_amount(q), ' ', 13)
        + " "@ + sym + " @ "@ + spec_price(p, currency) + "\n  "@ + right_pad(brokerage, ' ', 51)
        + "    "@ + left_pad(spec_price(total, currency), ' ', 15) + "\n\n"@
}

/// Whether a non-trade record's block renders (or is deliberately
/// skipped).
pub open spec fn render_non_trade_ok(n: NonTradeActivity, registry: Registry) -> bool {
    match n.kind {
        NonTradeKind::CashDeposit => true,
        NonTradeKind::CashWithdrawal => true,
        NonTradeKind::Interest => true,
        NonTradeKind::PassThruCharge => true,
        NonTradeKind::Other => true,
        NonTradeKind::Dividend => n.symbol matches Some(sym) && registry.spec_get(sym@) is Some,
        NonTradeKind::Fee => n.description matches Some(d) && (has_taf(d@) || has_reg(d@)
            || is_adr(d@)),
        NonTradeKind::Acquisition => n.net_amount@ == 0 || (n.description matches Some(d)
            && has_money(d@, acq_lit()) && money_mantissa(d@, acq_lit()) <= i128::MAX && frac_fits(
            money_mantissa(d@, acq_lit()),
            money_scale(d@, acq_lit()) as nat,
        ) && (n.symbol matches Some(sym) && registry.spec_get(sym@) is Some) && frac_val9(
            money_mantissa(d@, acq_lit()),
            money_scale(d@, acq_lit()) as nat,
        ) != 0 && (exists|qv: int|
            representable(qv) && #[trigger] (qv * frac_val9(
                money_mantissa(d@, acq_lit()),
                money_scale(d@, acq_lit()) as nat,
            )) == n.net_amount@ * pow10(9))),
        NonTradeKind::StockSplit => n.symbol matches Some(sym) && registry.spec_get(sym@) is Some
            && n.price is Some && n.quantity is Some && product_fits(
            n.price->Some_0@,
            n.quantity->Some_0@,
        ),
    }
}

/// Whether a rendered non-trade record produces a block at all: records of
/// unknown kind and zero-amount acquisitions are silently skipped.
pub open spec fn render_non_trade_emits(n: NonTradeActivity) -> bool {
    match n.kind {
        NonTradeKind::Other => false,
        NonTradeKind::Acquisition => n.net_amount@ != 0,
        _ => true,
    }
}

/// A fee failure among the first `k` fees is the first failure among all
/// of them.
proof fn lemma_first_fee_err_stable(fees: Seq<NonTradeActivity>, k: int, n: int)
    requires
        0 <= k <= n,
        first_fee_err(fees, k) is Some,
    ensures
        first_fee_err(fees, n) == first_fee_err(fees, k),
    decreases n - k,
{
    if k < n {
        lemma_first_fee_err_stable(fees, k + 1, n);
    }
}

/// The error a failing non-trade block reports, in the order the block is
/// built.
pub open spec fn render_non_trade_err(n: NonTradeActivity, registry: Registry) -> Error {
    match n.kind {
        NonTradeKind::Dividend => {
            if n.symbol is None {
                Error::DividendWithoutSymbol
            } else if registry.spec_get(n.symbol->Some_0@) is None {
                Error::UnknownSymbol(n.symbol->Some_0)
            } else {
                Error::AmountOutOfRange
            }
        },
        NonTradeKind::Fee => {
            if n.description is None {
                Error::FeeWithoutDescription
            } else {
                Error::UnclassifiableFee(n.description->Some_0)
            }
        },
        NonTradeKind::Acquisition => {
            if n.description is None {
                Error::AcquisitionWithoutDescription
            } else if !has_money(n.description->Some_0@, acq_lit()) {
                Error::AcquisitionUnparsable(n.description->Some_0)
            } else if !(money_mantissa(n.description->Some_0@, acq_lit()) <= i128::MAX
                && frac_fits(
                money_mantissa(n.description->Some_0@, acq_lit()),
                money_scale(n.description->Some_0@, acq_lit()) as nat,
            )) {
                Error::AmountOutOfRange
            } else if n.symbol is None {
                Error::AcquisitionWithoutSymbol
            } else if registry.spec_get(n.symbol->Some_0@) is None {
                Error::UnknownSymbol(n.symbol->Some_0)
            } else {
                Error::AmountOutOfRange
            }
        },
        NonTradeKind::StockSplit => {
            if n.symbol is None {
                Error::StockSplitWithoutSymbol
            } else if registry.spec_get(n.symbol->Some_0@) is None {
                Error::UnknownSymbol(n.symbol->Some_0)
            } else if n.price is None {
                Error::StockSplitWithoutPrice
            } else if n.quantity is None {
                Error::StockSplitWithoutQuantity
            } else {
                Error::AmountOutOfRange
            }
        },
        _ => Error::AmountOutOfRange,
    }
}

/// Append the optional description comment.
fn append_desc_frag(out: &mut String, o: &Option<String>)
    ensures
        final(out)@ == old(out)@ + desc_frag(*o),
{
    match o {
        Some(d) => {
            out.append("\n  ; ");
            out.append(d.as_str());
            proof {
                assert(out@ =~= old(out)@ + desc_frag(*o));
            }
        },
        None => {
            proof {
                assert(out@ =~= old(out)@ + desc_frag(*o));
            }
        },
    }
}

/// Render one non-trade record as a journal block, or nothing for records
/// the ledger does not track: unknown kinds and zero-amount acquisitions.
#[verifier::loop_isolation(false)]
#[verifier::rlimit(100)]
pub fn render_non_trade(
    non_trade: &NonTradeActivity,
    investment_account: &str,
    brokerage_account: &str,
    brokerage_fee_account: &str,
    dividend_account: &str,
    sec_fee_account: &str,
    finra_taf_account: &str,
    registry: &Registry,
    currency: &str,
) -> (r: Result<Option<String>, Error>)
    ensures
        r is Ok <==> render_non_trade_ok(*non_trade, *registry),
        r matches Ok(o) ==> (o is Some <==> render_non_trade_emits(*non_trade)),
        r matches Ok(o) ==> match non_trade.kind {
            NonTradeKind::CashDeposit | NonTradeKind::CashWithdrawal => o matches Some(out)
                && out@ == spec_render_transfer(*non_trade, brokerage_account@, currency@),
            NonTradeKind::Interest => o matches Some(out) && out@ == spec_render_interest(
                *non_trade,
                brokerage_account@,
                currency@,
            ),
            NonTradeKind::Dividend => o matches Some(out) && out@ == spec_render_dividend(
                *non_trade,
                registry.spec_get(non_trade.symbol->Some_0@)->Some_0,
                dividend_account@,
                brokerage_account@,
                currency@,
            ),
            NonTradeKind::PassThruCharge => o matches Some(out) && out@ == spec_render_passthru(
                *non_trade,
                brokerage_fee_account@,
                brokerage_account@,
                currency@,
            ),
            NonTradeKind::Fee => o matches Some(out) && out@ == spec_render_standalone_fee(
                *non_trade,
                brokerage_account@,
                brokerage_fee_account@,
                sec_fee_account@,
                finra_taf_account@,
                currency@,
            ),
            NonTradeKind::Acquisition => non_trade.net_amount@ != 0 ==> (o matches Some(out) && {
                let d = non_trade.description->Some_0@;
                let pv = frac_val9(money_mantissa(d, acq_lit()), money_scale(d, acq_lit()) as nat);
                exists|qv: int|
                    representable(qv) && #[trigger] (qv * pv) == non_trade.net_amount@ * pow10(9)
                        && out@ == spec_render_acquisition(
                        *non_trade,
                        registry.spec_get(non_trade.symbol->Some_0@)->Some_0,
                        pv,
                        qv,
                        investment_account@,
                        brokerage_account@,
                        currency@,
                    )
            }),
            NonTradeKind::StockSplit => o matches Some(out) && out@ == spec_render_split(
                *non_trade,
                registry.spec_get(non_trade.symbol->Some_0@)->Some_0,
                investment_account@,
                brokerage_account@,
                currency@,
            ),
            NonTradeKind::Other => o is None,
        },
        r matches Err(e) ==> e == render_non_trade_err(*non_trade, *registry),
{
    proof {
        use_type_invariant(&non_trade.net_amount);
    }
    match non_trade.kind {
        NonTradeKind::CashDeposit | NonTradeKind::CashWithdrawal => {
            let mut out = String::new();
            non_trade.date.append_format(&mut out);
            out.append(" * Transfer");
            append_desc_frag(&mut out, &non_trade.description);
            out.append("\n  ");
            append_left_aligned(&mut out, brokerage_account, 51);
            out.append("    ");
            let piece = format_price(&non_trade.net_amount, currency);
            append_right_aligned(&mut out, piece.as_str(), 15);
            out.append("\n  XXX\n\n");
            proof {
                assert(out@ =~= spec_render_transfer(*non_trade, brokerage_account@, currency@));
            }
            Ok(Some(out))
        },
        NonTradeKind::Interest => {
            let mut out = String::new();
            non_trade.date.append_format(&mut out);
            out.append(" * ");
            out.append("Alpaca Securities LLC");
            append_desc_frag(&mut out, &non_trade.description);
            out.append("\n  Income:Interest\n  ");
            append_left_aligned(&mut out, brokerage_account, 51);
            out.append("    ");
            let piece = format_price(&non_trade.net_amount, currency);
            append_right_aligned(&mut out, piece.as_str(), 15);
            out.append("\n\n");
            proof {
                assert(out@ =~= spec_render_interest(*non_trade, brokerage_account@, currency@));
            }
            Ok(Some(out))
        },
        NonTradeKind::Dividend => {
            let sym = match &non_trade.symbol {
                Some(s) => s,
                None => {
                    return Err(Error::DividendWithoutSymbol);
                },
            };
            let name = match registry.get(sym.as_str()) {
                Some(name) => name,
                None => {
                    return Err(Error::UnknownSymbol(sym.clone()));
                },
            };
            let mut out = String::new();
            non_trade.date.append_format(&mut out);
            out.append(" * ");
            out.append(name.as_str());
            out.append("\n  ");
            out.append(dividend_account);
            out.append("\n  ");
            append_left_aligned(&mut out, brokerage_account, 51);
            out.append("    ");
            let piece = format_price(&non_trade.net_amount, currency);
            append_right_aligned(&mut out, piece.as_str(), 15);
            out.append("\n\n");
            proof {
                assert(out@ =~= spec_render_dividend(
                    *non_trade,
                    registry.spec_get(non_trade.symbol->Some_0@)->Some_0,
                    dividend_account@,
                    brokerage_account@,
                    currency@,
                ));
            }
            Ok(Some(out))
        },
        NonTradeKind::PassThruCharge => {
            let mut out = String::new();
            non_trade.date.append_format(&mut out);
            out.append(" * ");
            out.append("Alpaca Securities LLC");
            append_desc_frag(&mut out, &non_trade.description);
            out.append("\n  ");
            out.append(brokerage_fee_account);
            out.append("\n  ");
            append_left_aligned(&mut out, brokerage_account, 51);
            out.append("    ");
            let piece = format_price(&non_trade.net_amount, currency);
            append_right_aligned(&mut out, piece.as_str(), 15);
            out.append("\n\n");
            proof {
                assert(out@ =~= spec_render_passthru(
                    *non_trade,
                    brokerage_fee_account@,
                    brokerage_account@,
                    currency@,
                ));
            }
            Ok(Some(out))
        },
        NonTradeKind::Fee => {
            let (to, desc) = match crate::fees::classify_fee(
                non_trade,
                brokerage_fee_account,
                sec_fee_account,
                finra_taf_account,
            ) {
                Ok(p) => p,
                Err(e) => {
                    return Err(e);
                },
            };
            let neg_net = non_trade.net_amount.neg();
            let mut out = String::new();
            non_trade.date.append_format(&mut out);
            out.append(" * ");
            out.append("Alpaca Securities LLC");
            out.append("\n  ; ");
            out.append(desc);
            out.append("\n  ");
            append_left_aligned(&mut out, to, 51);
            out.append("    ");
            let piece = format_price(&neg_net, currency);
            append_right_aligned(&mut out, piece.as_str(), 15);
            out.append("\n  ");
            out.append(brokerage_account);
            out.append("\n\n");
            proof {
                assert(out@ =~= spec_render_standalone_fee(
                    *non_trade,
                    brokerage_account@,
                    brokerage_fee_account@,
                    sec_fee_account@,
                    finra_taf_account@,
                    currency@,
                ));
            }
            Ok(Some(out))
        },
        NonTradeKind::Acquisition => {
            if non_trade.net_amount.is_zero() {
                return Ok(None);
            }
            let share_price = match extract_acquisition_share_price(non_trade) {
                Ok(p) => p,
                Err(e) => {
                    return Err(e);
                },
            };
            let sym = match &non_trade.symbol {
                Some(s) => s,
                None => {
                    return Err(Error::AcquisitionWithoutSymbol);
                },
            };
            let name = match registry.get(sym.as_str()) {
                Some(name) => name,
                None => {
                    return Err(Error::UnknownSymbol(sym.clone()));
                },
            };
            proof {
                // The extracted price is the canonical value of the
                // description's fraction.
                use_type_invariant(&share_price);
                let d = non_trade.description->Some_0@;
                let mant = money_mantissa(d, acq_lit());
                let sc = money_scale(d, acq_lit()) as nat;
                lemma_dec_norm(mant, sc);
                lemma_pow10_values();
                crate::decimal::lemma_pow10_adds((sc - dec_norm(mant, sc).1) as nat, 9);
                crate::decimal::lemma_pow10_adds(
                    (9 - dec_norm(mant, sc).1) as nat,
                    sc,
                );
                crate::decimal::lemma_pow10_pos(sc);
                // share_price@ * 10^sc == mant * 10^9 == frac_val9 * 10^sc.
                assert(frac_val9(mant, sc) * pow10(sc) == mant * pow10(9)) by (nonlinear_arith)
                    requires
                        mant == dec_norm(mant, sc).0 * pow10((sc - dec_norm(mant, sc).1) as nat),
                        frac_val9(mant, sc) == dec_norm(mant, sc).0 * pow10(
                            (9 - dec_norm(mant, sc).1) as nat,
                        ),
                        pow10((9 - dec_norm(mant, sc).1) as nat) * pow10(sc) == pow10(
                            ((9 - dec_norm(mant, sc).1) + sc) as nat,
                        ),
                        pow10((sc - dec_norm(mant, sc).1) as nat) * pow10(9) == pow10(
                            ((sc - dec_norm(mant, sc).1) + 9) as nat,
                        ),
                        pow10(((9 - dec_norm(mant, sc).1) + sc) as nat) == pow10(
                            ((sc - dec_norm(mant, sc).1) + 9) as nat,
                        ),
                ;
                crate::decimal::lemma_mul_cancel(share_price@, frac_val9(mant, sc), pow10(sc));
            }
            let quantity = match non_trade.net_amount.div(&share_price) {
                Some(q) => q,
                None => {
                    return Err(Error::AmountOutOfRange);
                },
            };
            let mut out = String::new();
            out.append("; ");
            out.append(name.as_str());
            out.append(" got acquired\n");
            non_trade.date.append_format(&mut out);
            out.append(" * ");
            out.append(name.as_str());
            out.append("\n  ");
            append_left_aligned(&mut out, investment_account, 51);
            out.append("  ");
            let mut qty_piece = String::new();
            append_plain_amount(&quantity, &mut qty_piece);
            append_right_aligned(&mut out, qty_piece.as_str(), 13);
            out.append(" ");
            out.append(sym.as_str());
            out.append(" @ ");
            let price_piece = format_price(&share_price, currency);
            out.append(price_piece.as_str());
            out.append(" = 0 ");
            out.append(sym.as_str());
            out.append("\n  ");
            append_left_aligned(&mut out, brokerage_account, 51);
            out.append("    ");
            let piece = format_price(&non_trade.net_amount, currency);
            append_right_aligned(&mut out, piece.as_str(), 15);
            out.append("\n\n");
            proof {
                let d = non_trade.description->Some_0@;
                let pv = frac_val9(money_mantissa(d, acq_lit()), money_scale(d, acq_lit()) as nat);
                use_type_invariant(&quantity);
                quantity.lemma_view_representable();
                assert(out@ =~= spec_render_acquisition(
                    *non_trade,
                    registry.spec_get(non_trade.symbol->Some_0@)->Some_0,
                    pv,
                    quantity@,
                    investment_account@,
                    brokerage_account@,
                    currency@,
                ));
            }
            Ok(Some(out))
        },
        NonTradeKind::StockSplit => {
            let sym = match &non_trade.symbol {
                Some(s) => s,
                None => {
                    return Err(Error::StockSplitWithoutSymbol);
                },
            };
            let name = match registry.get(sym.as_str()) {
                Some(name) => name,
                None => {
                    return Err(Error::UnknownSymbol(sym.clone()));
                },
            };
            let price = match &non_trade.price {
                Some(p) => p,
                None => {
                    return Err(Error::StockSplitWithoutPrice);
                },
            };
            let quantity = match &non_trade.quantity {
                Some(q) => q,
                None => {
                    return Err(Error::StockSplitWithoutQuantity);
                },
            };
            let total = match price.mul(quantity) {
                Some(t) => t,
                None => {
                    return Err(Error::AmountOutOfRange);
                },
            };
            proof {
                lemma_pow10_values();
                vstd::arithmetic::div_mod::lemma_fundamental_div_mod_converse(
                    price@ * quantity@,
                    pow10(9),
                    total@,
                    0,
                );
            }
            let mut out = String::new();
            non_trade.date.append_format(&mut out);
            out.append(" * ");
            out.append(name.as_str());
            out.append("\n  ; Stock split");
            append_desc_frag(&mut out, &non_trade.description);
            out.append("\n  ");
            append_left_aligned(&mut out, investment_account, 51);
            out.append("  ");
            let mut qty_piece = String::new();
            append_plain_amount(quantity, &mut qty_piece);
            append_right_aligned(&mut out, qty_piece.as_str(), 13);
            out.append(" ");
            out.append(sym.as_str());
            out.append(" @ ");
            let price_piece = format_price(price, currency);
            out.append(price_piece.as_str());
            out.append("\n  ");
            append_left_aligned(&mut out, brokerage_account, 51);
            out.append("    ");
            let total_piece = format_price(&total, currency);
            append_right_aligned(&mut out, total_piece.as_str(), 15);
            out.append("\n\n");
            proof {
                assert(out@ =~= spec_render_split(
                    *non_trade,
                    registry.spec_get(non_trade.symbol->Some_0@)->Some_0,
                    investment_account@,
                    brokerage_account@,
                    currency@,
                ));
            }
            Ok(Some(out))
        },
        NonTradeKind::Other => Ok(None),
    }
}

} // verus!
