//! Fee classification and association.
//!
//! A fee record's free-text description decides its category:
//!
//! - `TAF fee for proceed of N shares` — a FINRA trading activity fee; `N`
//!   is the share count of the trade it belongs to.
//! - `REG fee for proceed of $P` — an SEC regulatory fee; `P` (digits, a
//!   point, digits) is the proceeds of the trade it belongs to.
//! - a description starting with `ADR Fees` — a brokerage expense tied to
//!   no trade.
//!
//! The first two patterns may occur anywhere in the description; the
//! leftmost occurrence counts, its digit runs read greedily. Anything else
//! is unclassifiable, a fatal error.

use vstd::prelude::*;
use vstd::string::StrSliceExecFns;
use crate::text::{matches_at, run_end, all_digits, digits_val, is_digit, lemma_run_end};
use crate::text::{has_pattern_at, digit_run_end};
use crate::activity::{Activity, NonTradeActivity, NonTradeKind, ReconciledActivity};
use crate::decimal::{Decimal, pow10, MAX_MANTISSA, lemma_pow10_values, lemma_pow10_adds};
use crate::text::lemma_digits_val_all_zero;
use crate::error::Error;

verus! {

/// The literal opening a trading-activity-fee description's pattern.
pub open spec fn taf_lit() -> Seq<char> {
    "TAF fee for proceed of "@
}

/// The literal closing a trading-activity-fee description's pattern.
pub open spec fn taf_tail() -> Seq<char> {
    " shares"@
}

/// The literal opening a regulatory-fee description's pattern.
pub open spec fn reg_lit() -> Seq<char> {
    "REG fee for proceed of $"@
}

/// The prefix marking a depositary-receipt fee description.
pub open spec fn adr_lit() -> Seq<char> {
    "ADR Fees"@
}

/// The literal opening an acquisition description's share price.
pub open spec fn acq_lit() -> Seq<char> {
    "Cash Merger $"@
}

/// Whether the share-count pattern matches at `i`: the opening literal, a
/// nonempty digit run, then the closing literal.
pub open spec fn taf_match_at(s: Seq<char>, i: int) -> bool {
    &&& matches_at(s, taf_lit(), i)
    &&& run_end(s, i + taf_lit().len()) > i + taf_lit().len()
    &&& matches_at(s, taf_tail(), run_end(s, i + taf_lit().len()))
}

/// The first index at or after `i` where the share-count pattern matches,
/// or the length when it nowhere does.
pub open spec fn first_taf_from(s: Seq<char>, i: int) -> int
    decreases s.len() - i,
{
    if 0 <= i < s.len() {
        if taf_match_at(s, i) {
            i
        } else {
            first_taf_from(s, i + 1)
        }
    } else {
        i
    }
}

/// Whether the description carries the share-count pattern.
pub open spec fn has_taf(s: Seq<char>) -> bool {
    exists|i: int| 0 <= i < s.len() && taf_match_at(s, i)
}

/// The share count the leftmost match extracts.
pub open spec fn taf_shares_val(s: Seq<char>) -> int {
    let j = first_taf_from(s, 0) + taf_lit().len();
    digits_val(s.subrange(j, run_end(s, j)))
}

/// Whether the money pattern `lit` digits `.` digits matches at `i`, both
/// digit runs read greedily and nonempty.
pub open spec fn money_match_at(s: Seq<char>, lit: Seq<char>, i: int) -> bool {
    let j = i + lit.len();
    let k = run_end(s, j);
    &&& matches_at(s, lit, i)
    &&& k > j
    &&& k < s.len()
    &&& s[k] == '.'
    &&& run_end(s, k + 1) > k + 1
}

/// The first index at or after `i` where the money pattern matches, or the
/// length when it nowhere does.
pub open spec fn first_money_from(s: Seq<char>, lit: Seq<char>, i: int) -> int
    decreases s.len() - i,
{
    if 0 <= i < s.len() {
        if money_match_at(s, lit, i) {
            i
        } else {
            first_money_from(s, lit, i + 1)
        }
    } else {
        i
    }
}

/// Whether the description carries the money pattern for `lit`.
pub open spec fn has_money(s: Seq<char>, lit: Seq<char>) -> bool {
    exists|i: int| 0 <= i < s.len() && money_match_at(s, lit, i)
}

/// The two digit runs of the leftmost money match, joined: the digits of
/// the amount with the point removed.
pub open spec fn money_digits(s: Seq<char>, lit: Seq<char>) -> Seq<char> {
    let i = first_money_from(s, lit, 0);
    let j = i + lit.len();
    let k = run_end(s, j);
    s.subrange(j, k) + s.subrange(k + 1, run_end(s, k + 1))
}

/// The amount's digits read as a number.
pub open spec fn money_mantissa(s: Seq<char>, lit: Seq<char>) -> int {
    digits_val(money_digits(s, lit))
}

/// How many digits follow the point in the leftmost money match.
pub open spec fn money_scale(s: Seq<char>, lit: Seq<char>) -> int {
    let i = first_money_from(s, lit, 0);
    let k = run_end(s, i + lit.len());
    run_end(s, k + 1) - (k + 1)
}

/// Whether the description carries the regulatory-fee pattern.
pub open spec fn has_reg(s: Seq<char>) -> bool {
    has_money(s, reg_lit())
}

/// Whether the description starts with the depositary-receipt prefix.
pub open spec fn is_adr(s: Seq<char>) -> bool {
    matches_at(s, adr_lit(), 0)
}

/// Find the leftmost share-count match; `Some((j, k))` brackets its digit
/// run.
#[verifier::loop_isolation(false)]
pub fn find_taf(s: &str) -> (r: Option<(usize, usize)>)
    ensures
        r is Some <==> has_taf(s@),
        r matches Some(p) ==> {
            let i = first_taf_from(s@, 0);
            &&& 0 <= i < s@.len()
            &&& taf_match_at(s@, i)
            &&& p.0 == i + taf_lit().len()
            &&& p.1 == run_end(s@, p.0 as int)
            &&& p.0 < p.1 <= s@.len()
        },
{
    let n = s.unicode_len();
    let lit: &str = "TAF fee for proceed of ";
    let tail: &str = " shares";
    let lit_len = lit.unicode_len();
    proof {
        assert(lit@ == taf_lit());
        assert(tail@ == taf_tail());
    }
    let mut i: usize = 0;
    while i < n
        invariant
            n == s@.len(),
            i <= n,
            lit_len == taf_lit().len(),
            forall|q: int| 0 <= q < i ==> !taf_match_at(s@, q),
            forall|q: int| 0 <= q < i ==> first_taf_from(s@, q) == first_taf_from(s@, i as int),
        decreases n - i,
    {
        if has_pattern_at(s, lit, i) {
            let j = i + lit_len;
            proof {
                lemma_run_end(s@, j as int);
            }
            let k = digit_run_end(s, j);
            if k > j && has_pattern_at(s, tail, k) {
                proof {
                    assert(taf_match_at(s@, i as int));
                    assert(first_taf_from(s@, i as int) == i as int);
                    assert(first_taf_from(s@, 0) == i as int);
                }
                return Some((j, k));
            }
        }
        proof {
            assert(!taf_match_at(s@, i as int));
        }
        i = i + 1;
    }
    proof {
        assert(forall|q: int| 0 <= q < s@.len() ==> !taf_match_at(s@, q));
    }
    None
}

/// Find the leftmost money match for `lit`; `Some((j, k1, k2))` brackets
/// the digit runs: units in `j..k1`, the point at `k1`, fraction in
/// `k1 + 1..k2`.
#[verifier::loop_isolation(false)]
pub fn find_money(s: &str, lit: &str) -> (r: Option<(usize, usize, usize)>)
    ensures
        r is Some <==> has_money(s@, lit@),
        r matches Some(p) ==> {
            let i = first_money_from(s@, lit@, 0);
            &&& 0 <= i < s@.len()
            &&& money_match_at(s@, lit@, i)
            &&& p.0 == i + lit@.len()
            &&& p.1 == run_end(s@, p.0 as int)
            &&& p.2 == run_end(s@, p.1 + 1)
            &&& p.0 < p.1 < p.2 <= s@.len()
        },
{
    let n = s.unicode_len();
    let lit_len = lit.unicode_len();
    let mut i: usize = 0;
    while i < n
        invariant
            n == s@.len(),
            i <= n,
            lit_len == lit@.len(),
            forall|q: int| 0 <= q < i ==> !money_match_at(s@, lit@, q),
            forall|q: int|
                0 <= q < i ==> first_money_from(s@, lit@, q) == first_money_from(
                    s@,
                    lit@,
                    i as int,
                ),
        decreases n - i,
    {
        if has_pattern_at(s, lit, i) {
            let j = i + lit_len;
            proof {
                lemma_run_end(s@, j as int);
            }
            let k1 = digit_run_end(s, j);
            if k1 > j && k1 < n {
                let c = s.get_char(k1);
                if c == '.' {
                    proof {
                        lemma_run_end(s@, k1 as int + 1);
                    }
                    let k2 = digit_run_end(s, k1 + 1);
                    if k2 > k1 + 1 {
                        proof {
                            assert(money_match_at(s@, lit@, i as int));
                            assert(first_money_from(s@, lit@, i as int) == i as int);
                            assert(first_money_from(s@, lit@, 0) == i as int);
                        }
                        return Some((j, k1, k2));
                    }
                }
            }
        }
        proof {
            assert(!money_match_at(s@, lit@, i as int));
        }
        i = i + 1;
    }
    proof {
        assert(forall|q: int| 0 <= q < s@.len() ==> !money_match_at(s@, lit@, q));
    }
    None
}

/// Whether the description starts with the depositary-receipt prefix,
/// executably.
pub fn find_adr(s: &str) -> (r: bool)
    ensures
        r == is_adr(s@),
{
    proof {
        assert("ADR Fees"@ == adr_lit());
    }
    has_pattern_at(s, "ADR Fees", 0)
}

/// Classify a fee activity by its description, as the renderer needs it:
/// the account the fee debits, and the description for the comment line.
/// Share-count fees go to the trading-activity-fee account, regulatory
/// fees to the regulatory-fee account, depositary-receipt fees to the
/// broker's own fee account; in that order of precedence. A fee without a
/// description, or with one matching no pattern, is a fatal error.
pub fn classify_fee<'a, 'b>(
    non_trade: &'b NonTradeActivity,
    brokerage_fee_account: &'a str,
    sec_fee_account: &'a str,
    finra_taf_account: &'a str,
) -> (r: Result<(&'a str, &'b str), Error>)
    ensures
        r is Ok <==> (non_trade.description matches Some(d) && (has_taf(d@) || has_reg(d@)
            || is_adr(d@))),
        r matches Ok(p) ==> {
            let d = non_trade.description->Some_0;
            &&& p.1@ == d@
            &&& has_taf(d@) ==> p.0@ == finra_taf_account@
            &&& (!has_taf(d@) && has_reg(d@)) ==> p.0@ == sec_fee_account@
            &&& (!has_taf(d@) && !has_reg(d@) && is_adr(d@)) ==> p.0@ == brokerage_fee_account@
        },
        r matches Err(e) ==> match e {
            Error::FeeWithoutDescription => non_trade.description is None,
            Error::UnclassifiableFee(d) => non_trade.description matches Some(d0) && d == d0,
            _ => false,
        },
{
    match &non_trade.description {
        Some(description) => {
            if find_taf(description.as_str()).is_some() {
                Ok((finra_taf_account, description.as_str()))
            } else if find_money(description.as_str(), "REG fee for proceed of $").is_some() {
                proof {
                    assert("REG fee for proceed of $"@ == reg_lit());
                }
                Ok((sec_fee_account, description.as_str()))
            } else if find_adr(description.as_str()) {
                proof {
                    assert("REG fee for proceed of $"@ == reg_lit());
                }
                Ok((brokerage_fee_account, description.as_str()))
            } else {
                proof {
                    assert("REG fee for proceed of $"@ == reg_lit());
                }
                Err(Error::UnclassifiableFee(description.clone()))
            }
        },
        None => Err(Error::FeeWithoutDescription),
    }
}

/// The non-trade record inside an activity.
pub open spec fn non_trade_of(a: Activity) -> NonTradeActivity
    recommends
        a is NonTrade,
{
    a->NonTrade_0
}

/// A fee record.
pub open spec fn is_fee(a: Activity) -> bool {
    a matches Activity::NonTrade(n) && n.kind == NonTradeKind::Fee
}

/// The description of a fee record, as a character sequence.
pub open spec fn desc_of(a: Activity) -> Seq<char>
    recommends
        a is NonTrade,
        non_trade_of(a).description is Some,
{
    non_trade_of(a).description->Some_0@
}

/// Whether a record is the trade a classified fee description belongs to: a
/// share-count fee names the trade's quantity, a regulatory fee names the
/// trade's proceeds, price times quantity.
pub open spec fn trade_matches(a: Activity, d: Seq<char>) -> bool {
    &&& a matches Activity::Trade(t)
    &&& if has_taf(d) {
        t.quantity@ == taf_shares_val(d) * pow10(9)
    } else if has_reg(d) {
        t.price@ * t.quantity@ * pow10(money_scale(d, reg_lit()) as nat) == money_mantissa(
            d,
            reg_lit(),
        ) * pow10(18)
    } else {
        false
    }
}

/// The first record at or after `j` the description's fee belongs to, or
/// the length when none does.
pub open spec fn first_match_from(s: Seq<Activity>, d: Seq<char>, j: int) -> int
    decreases s.len() - j,
{
    if 0 <= j < s.len() {
        if trade_matches(s[j], d) {
            j
        } else {
            first_match_from(s, d, j + 1)
        }
    } else {
        j
    }
}

/// Whether the batch holds a trade the description's fee belongs to.
pub open spec fn has_match(s: Seq<Activity>, d: Seq<char>) -> bool {
    exists|j: int| 0 <= j < s.len() && trade_matches(#[trigger] s[j], d)
}

/// A fee that association removes from the batch and attaches to a trade:
/// classified as a share-count or regulatory fee, with its trade present.
pub open spec fn fee_attaches(s: Seq<Activity>, i: int) -> bool {
    &&& is_fee(s[i])
    &&& non_trade_of(s[i]).description is Some
    &&& (has_taf(desc_of(s[i])) || has_reg(desc_of(s[i])))
    &&& has_match(s, desc_of(s[i]))
}

/// The trade an attaching fee joins: the first match in the batch.
pub open spec fn fee_target(s: Seq<Activity>, i: int) -> int {
    first_match_from(s, desc_of(s[i]), 0)
}

/// A fee record association must reject: one without a description, one
/// whose description fits no pattern, or a classified fee with no trade to
/// join in its batch.
pub open spec fn offends(s: Seq<Activity>, i: int) -> bool {
    &&& is_fee(s[i])
    &&& {
        ||| non_trade_of(s[i]).description is None
        ||| (non_trade_of(s[i]).description is Some && !has_taf(desc_of(s[i])) && !has_reg(
            desc_of(s[i]),
        ) && !is_adr(desc_of(s[i])))
        ||| (non_trade_of(s[i]).description is Some && (has_taf(desc_of(s[i])) || has_reg(
            desc_of(s[i]),
        )) && !has_match(s, desc_of(s[i])))
    }
}

/// Whether any record offends.
pub open spec fn has_offender(s: Seq<Activity>) -> bool {
    exists|i: int| 0 <= i < s.len() && offends(s, i)
}

/// The first offending record, or the length when none offends.
pub open spec fn first_offender_from(s: Seq<Activity>, i: int) -> int
    decreases s.len() - i,
{
    if 0 <= i < s.len() {
        if offends(s, i) {
            i
        } else {
            first_offender_from(s, i + 1)
        }
    } else {
        i
    }
}

/// The error an offending fee record raises.
pub open spec fn offense_error(s: Seq<Activity>, i: int) -> Error {
    if non_trade_of(s[i]).description is None {
        Error::FeeWithoutDescription
    } else if !has_taf(desc_of(s[i])) && !has_reg(desc_of(s[i])) && !is_adr(desc_of(s[i])) {
        Error::UnclassifiableFee(non_trade_of(s[i]).description->Some_0)
    } else {
        Error::UnassociatedFee(non_trade_of(s[i]).description->Some_0)
    }
}

/// The fees, among the first `n` records, that association attaches to the
/// trade at `j`, in feed order.
pub open spec fn fees_for_upto(s: Seq<Activity>, j: int, n: int) -> Seq<NonTradeActivity>
    decreases n,
{
    if n <= 0 {
        Seq::empty()
    } else {
        fees_for_upto(s, j, n - 1) + if fee_attaches(s, n - 1) && fee_target(s, n - 1) == j {
            seq![non_trade_of(s[n - 1])]
        } else {
            Seq::empty()
        }
    }
}

/// All the fees association attaches to the trade at `j`, in feed order.
pub open spec fn fees_for(s: Seq<Activity>, j: int) -> Seq<NonTradeActivity> {
    fees_for_upto(s, j, s.len() as int)
}

/// How many of the first `i` records the association keeps: all but the
/// attaching fees.
pub open spec fn assoc_kept_before(s: Seq<Activity>, i: int) -> int
    decreases i,
{
    if i <= 0 {
        0
    } else {
        assoc_kept_before(s, i - 1) + if fee_attaches(s, i - 1) {
            0int
        } else {
            1int
        }
    }
}

/// What association leaves for the kept record at `j`: a trade carries the
/// fees it pays; anything else stands alone.
pub open spec fn reconciled_matches(s: Seq<Activity>, j: int, out: ReconciledActivity) -> bool {
    if s[j] is Trade {
        out matches ReconciledActivity::Trade(t, fees) && t == s[j]->Trade_0 && fees@ == fees_for(
            s,
            j,
        )
    } else {
        out == ReconciledActivity::NonTrade(non_trade_of(s[j]))
    }
}

/// The two digit runs of a money match, copied into one string.
pub(crate) fn money_digits_string(s: &str, j: usize, k1: usize, k2: usize) -> (r: String)
    requires
        j <= k1 < k2,
        k2 <= s@.len(),
    ensures
        r@ == s@.subrange(j as int, k1 as int) + s@.subrange(k1 as int + 1, k2 as int),
{
    let mut out = String::new();
    let d1 = s.substring_char(j, k1);
    out.append(d1);
    let d2 = s.substring_char(k1 + 1, k2);
    out.append(d2);
    proof {
        assert(out@ =~= s@.subrange(j as int, k1 as int) + s@.subrange(k1 as int + 1, k2 as int));
    }
    out
}

/// Whether a trade's quantity is the given share count (in billionths,
/// possibly beyond what any trade can hold).
fn taf_matches_trade(qty: &Decimal, shares_dec: &Option<Decimal>, Ghost(nval): Ghost<int>) -> (r:
    bool)
    requires
        shares_dec matches Some(d) ==> d@ == nval * pow10(9),
        shares_dec is None ==> nval >= MAX_MANTISSA,
    ensures
        r == (qty@ == nval * pow10(9)),
{
    match shares_dec {
        Some(d) => qty.eq_value(d),
        None => {
            proof {
                use_type_invariant(qty);
                qty.lemma_view_representable();
                lemma_pow10_values();
                assert(qty@ != nval * pow10(9)) by (nonlinear_arith)
                    requires
                        qty@ < 100000000000000 * pow10(9),
                        nval >= 100000000000000,
                        pow10(9) >= 1,
                ;
            }
            false
        },
    }
}

/// Whether a trade's proceeds, price times quantity, equal the amount the
/// digit string denotes at scale `f` (the count of fraction digits).
#[verifier::loop_isolation(false)]
fn reg_matches_trade(price: &Decimal, qty: &Decimal, digits: &str, f: usize) -> (r: bool)
    requires
        all_digits(digits@),
        digits@.len() >= 1,
    ensures
        r == (price@ * qty@ * pow10(f as nat) == digits_val(digits@) * pow10(18)),
{
    proof {
        lemma_pow10_values();
    }
    let (p0, ep) = price.product_mantissa(qty);
    let pq_side: Ghost<int> = Ghost(price@ * qty@ * pow10(f as nat));
    proof {
        // price * quantity * 10^f == p0 * 10^(ep + f).
        lemma_pow10_adds(ep as nat, f as nat);
        assert((p0 as int * pow10(ep as nat)) * pow10(f as nat) == p0 as int * pow10(
            (ep + f as u128) as nat,
        )) by (nonlinear_arith)
            requires
                pow10(ep as nat) * pow10(f as nat) == pow10((ep + f as u128) as nat),
                (ep + f as u128) as int == ep as int + f as int,
        ;
    }
    let n = digits.unicode_len();
    let mut last_nz: usize = n;
    let mut i: usize = 0;
    while i < n
        invariant
            i <= n,
            n == digits@.len(),
            last_nz == n || (last_nz < i && digits@[last_nz as int] != '0'),
            forall|m: int| 0 <= m < i && (last_nz == n || m > last_nz) ==> digits@[m] == '0',
        decreases n - i,
    {
        let c = digits.get_char(i);
        if c != '0' {
            last_nz = i;
        }
        i = i + 1;
    }
    if last_nz == n {
        proof {
            lemma_digits_val_all_zero(digits@);
            crate::decimal::lemma_pow10_pos((ep as u128 + f as u128) as nat);
            assert((p0 as int * pow10((ep + f as u128) as nat) == 0) <==> p0 as int == 0)
                by (nonlinear_arith)
                requires pow10((ep + f as u128) as nat) >= 1;
            assert(0int * pow10(18) == 0) by (nonlinear_arith);
        }
        return p0 == 0;
    }
    let ghost sig = digits@.subrange(0, last_nz as int + 1);
    let ghost zeros = digits@.subrange(last_nz as int + 1, n as int);
    let z = n - 1 - last_nz;
    proof {
        assert(digits@ =~= sig + zeros);
        crate::text::lemma_digits_val_concat(sig, zeros);
        lemma_digits_val_all_zero(zeros);
        assert(forall|m: int| 0 <= m < sig.len() ==> is_digit(#[trigger] sig[m]));
        crate::text::lemma_digits_val_last_nonzero(sig);
        assert(digits_val(digits@) == digits_val(sig) * pow10(z as nat));
        // The right side is dv(sig) * 10^(18 + z).
        lemma_pow10_adds(z as nat, 18);
        assert((digits_val(sig) * pow10(z as nat)) * pow10(18) == digits_val(sig) * pow10(
            (18 + z) as nat,
        )) by (nonlinear_arith)
            requires pow10(z as nat) * pow10(18) == pow10((18 + z) as nat);
        crate::decimal::lemma_pow10_pos((18 + z) as nat);
        crate::decimal::lemma_pow10_pos((ep as u128 + f as u128) as nat);
    }
    if p0 == 0 {
        proof {
            assert(price@ * qty@ == 0);
            assert(price@ * qty@ * pow10(f as nat) == 0) by (nonlinear_arith)
                requires price@ * qty@ == 0;
            assert(digits_val(sig) * pow10((18 + z) as nat) != 0) by (nonlinear_arith)
                requires
                    digits_val(sig) >= 1,
                    pow10((18 + z) as nat) >= 1,
            ;
        }
        return false;
    }
    if p0 < 0 {
        proof {
            assert(p0 as int * pow10((ep + f as u128) as nat) < 0) by (nonlinear_arith)
                requires
                    p0 < 0,
                    pow10((ep + f as u128) as nat) >= 1,
            ;
            assert(digits_val(sig) * pow10((18 + z) as nat) > 0) by (nonlinear_arith)
                requires
                    digits_val(sig) >= 1,
                    pow10((18 + z) as nat) >= 1,
            ;
        }
        return false;
    }
    match crate::text::parse_digits(digits, 0, last_nz + 1) {
        None => {
            proof {
                if price@ * qty@ * pow10(f as nat) == digits_val(digits@) * pow10(18) {
                    crate::decimal::lemma_stripped_unique(
                        p0 as int,
                        digits_val(sig),
                        (ep as u128 + f as u128) as nat,
                        (18 + z) as nat,
                    );
                }
            }
            false
        },
        Some(msig) => {
            let r = msig == p0 && ep as u128 + f as u128 == 18 + z as u128;
            proof {
                if r {
                    assert(p0 as int * pow10((ep + f as u128) as nat) == digits_val(sig) * pow10(
                        (18 + z) as nat,
                    ));
                } else {
                    if price@ * qty@ * pow10(f as nat) == digits_val(digits@) * pow10(18) {
                        crate::decimal::lemma_stripped_unique(
                            p0 as int,
                            digits_val(sig),
                            (ep as u128 + f as u128) as nat,
                            (18 + z) as nat,
                        );
                    }
                }
            }
            r
        },
    }
}

/// A found match with none before it is the first one.
proof fn lemma_first_match_at(s: Seq<Activity>, d: Seq<char>, i: int, k: int)
    requires
        0 <= i <= k < s.len(),
        trade_matches(s[k], d),
        forall|q: int| i <= q < k ==> !trade_matches(#[trigger] s[q], d),
    ensures
        first_match_from(s, d, i) == k,
    decreases k - i,
{
    if i < k {
        lemma_first_match_at(s, d, i + 1, k);
    }
}

/// When the batch holds a match, the first match is one.
proof fn lemma_first_match_in_range(s: Seq<Activity>, d: Seq<char>, i: int)
    requires
        0 <= i <= s.len(),
        exists|q: int| i <= q < s.len() && trade_matches(#[trigger] s[q], d),
    ensures
        i <= first_match_from(s, d, i) < s.len(),
        trade_matches(s[first_match_from(s, d, i)], d),
    decreases s.len() - i,
{
    if !trade_matches(s[i], d) {
        let w = choose|q: int| i <= q < s.len() && trade_matches(#[trigger] s[q], d);
        assert(i + 1 <= w);
        lemma_first_match_in_range(s, d, i + 1);
    }
}

/// An offender with none before it is the first one.
proof fn lemma_first_offender_at(s: Seq<Activity>, i: int, k: int)
    requires
        0 <= i <= k < s.len(),
        offends(s, k),
        forall|q: int| i <= q < k ==> !offends(s, q),
    ensures
        first_offender_from(s, i) == k,
    decreases k - i,
{
    if i < k {
        lemma_first_offender_at(s, i + 1, k);
    }
}

/// Associate regulatory fees with the trades they belong to.
///
/// Every fee record is classified by its description. Share-count and
/// regulatory fees join the first trade of the batch whose quantity,
/// respectively proceeds, the description names, in feed order;
/// depositary-receipt fees stand alone. The records keep their order,
/// trades carrying their fees. The batch is rejected on the first fee, in
/// feed order, that has no description, fits no pattern, or names no trade
/// of the batch.
#[verifier::loop_isolation(false)]
#[verifier::rlimit(100)]
pub fn associate_fees_with_trades(activities: Vec<Activity>) -> (r: Result<
    Vec<ReconciledActivity>,
    Error,
>)
    ensures
        r is Err <==> has_offender(activities@),
        r matches Err(e) ==> e == offense_error(activities@, first_offender_from(activities@, 0)),
        r matches Ok(v) ==> {
            &&& v@.len() == assoc_kept_before(activities@, activities@.len() as int)
            &&& forall|p: int|
                0 <= p < activities@.len() && !fee_attaches(activities@, p) ==> 0
                    <= assoc_kept_before(activities@, p) < v@.len() && reconciled_matches(
                    activities@,
                    p,
                    v@[assoc_kept_before(activities@, p)],
                )
        },
{
    let ghost s = activities@;
    let n = activities.len();

    // Classify each fee and find the trade it joins.
    let mut targets: Vec<Option<usize>> = Vec::new();
    let mut i: usize = 0;
    while i < n
        invariant
            targets@.len() == i,
            i <= n,
            forall|p: int| 0 <= p < i ==> !offends(s, p),
            forall|p: int| 0 <= p < i ==> ((#[trigger] targets@[p]) is Some <==> fee_attaches(
                s,
                p,
            )),
            forall|p: int|
                0 <= p < i ==> (#[trigger] targets@[p] matches Some(k) ==> 0 <= k < n && k as int
                    == fee_target(s, p)),
        decreases n - i,
    {
        let mut tgt: Option<usize> = None;
        let mut fee_handled = false;
        if let Activity::NonTrade(nt) = &activities[i] {
            if nt.kind == NonTradeKind::Fee {
                fee_handled = true;
                match &nt.description {
                    None => {
                        proof {
                            assert(offends(s, i as int));
                            lemma_first_offender_at(s, 0, i as int);
                        }
                        return Err(Error::FeeWithoutDescription);
                    },
                    Some(desc) => {
                        let ds = desc.as_str();
                        proof {
                            assert(ds@ == desc_of(s[i as int]));
                        }
                        if let Some((dj, dk)) = find_taf(ds) {
                            let ghost nval = taf_shares_val(ds@);
                            proof {
                                lemma_run_end(ds@, dj as int);
                                assert(forall|m: int|
                                    dj <= m < dk ==> is_digit(#[trigger] ds@[m]));
                                assert(all_digits(ds@.subrange(dj as int, dk as int))) by {
                                    assert(forall|m: int|
                                        0 <= m < dk - dj ==> #[trigger] ds@.subrange(
                                            dj as int,
                                            dk as int,
                                        )[m] == ds@[dj + m]);
                                }
                                crate::text::lemma_digits_val_nonneg(
                                    ds@.subrange(dj as int, dk as int),
                                );
                            }
                            let shares_dec: Option<Decimal> = match crate::text::parse_digits(
                                ds,
                                dj,
                                dk,
                            ) {
                                Some(v) => {
                                    let d = Decimal::new(v, 0);
                                    proof {
                                        if d is None {
                                            assert(crate::decimal::dec_norm(v as int, 0) == (
                                            v as int,
                                            0nat,
                                            ));
                                        }
                                    }
                                    d
                                },
                                None => None,
                            };
                            let mut j2: usize = 0;
                            let mut found = false;
                            while j2 < n && !found
                                invariant
                                    j2 <= n,
                                    shares_dec matches Some(d) ==> d@ == nval * pow10(9),
                                    shares_dec is None ==> nval >= MAX_MANTISSA,
                                    !found ==> forall|q: int|
                                        0 <= q < j2 ==> !trade_matches(#[trigger] s[q], ds@),
                                    found ==> j2 < n && trade_matches(s[j2 as int], ds@)
                                        && forall|q: int|
                                        0 <= q < j2 ==> !trade_matches(#[trigger] s[q], ds@),
                                decreases n - j2, if found { 0int } else { 1int },
                            {
                                let mut hit = false;
                                if let Activity::Trade(t) = &activities[j2] {
                                    hit = taf_matches_trade(&t.quantity, &shares_dec, Ghost(nval));
                                }
                                proof {
                                    assert(hit == trade_matches(s[j2 as int], ds@));
                                }
                                if hit {
                                    found = true;
                                } else {
                                    j2 = j2 + 1;
                                }
                            }
                            if found {
                                proof {
                                    lemma_first_match_at(s, ds@, 0, j2 as int);
                                    assert(has_match(s, ds@));
                                    assert(fee_attaches(s, i as int));
                                    assert(!offends(s, i as int));
                                }
                                tgt = Some(j2);
                            } else {
                                proof {
                                    assert(!has_match(s, ds@));
                                    assert(offends(s, i as int));
                                    lemma_first_offender_at(s, 0, i as int);
                                }
                                return Err(Error::UnassociatedFee(desc.clone()));
                            }
                        } else {
                            let rm = find_money(ds, "REG fee for proceed of $");
                            proof {
                                assert("REG fee for proceed of $"@ == reg_lit());
                            }
                            if let Some((dj, dk1, dk2)) = rm {
                                let digits = money_digits_string(ds, dj, dk1, dk2);
                                let f = dk2 - (dk1 + 1);
                                proof {
                                    assert(digits@ == money_digits(ds@, reg_lit()));
                                    assert(f as int == money_scale(ds@, reg_lit()));
                                    lemma_run_end(ds@, dj as int);
                                    lemma_run_end(ds@, dk1 as int + 1);
                                    assert(all_digits(digits@)) by {
                                        assert(forall|m: int|
                                            dj <= m < dk1 ==> is_digit(#[trigger] ds@[m]));
                                        assert(forall|m: int|
                                            dk1 + 1 <= m < dk2 ==> is_digit(#[trigger] ds@[m]));
                                        assert(forall|m: int|
                                            0 <= m < digits@.len() ==> is_digit(
                                                #[trigger] digits@[m],
                                            )) by {
                                            assert(forall|m: int|
                                                0 <= m < dk1 - dj ==> #[trigger] digits@[m]
                                                    == ds@[dj + m]);
                                            assert(forall|m: int|
                                                dk1 - dj <= m < digits@.len()
                                                    ==> #[trigger] digits@[m] == ds@[m - (
                                                dk1 - dj) + dk1 + 1]);
                                        }
                                    }
                                    assert(digits@.len() >= 1);
                                }
                                let mut j2: usize = 0;
                                let mut found = false;
                                while j2 < n && !found
                                    invariant
                                        j2 <= n,
                                        !found ==> forall|q: int|
                                            0 <= q < j2 ==> !trade_matches(#[trigger] s[q], ds@),
                                        found ==> j2 < n && trade_matches(s[j2 as int], ds@)
                                            && forall|q: int|
                                            0 <= q < j2 ==> !trade_matches(#[trigger] s[q], ds@),
                                    decreases n - j2, if found { 0int } else { 1int },
                                {
                                    let mut hit = false;
                                    if let Activity::Trade(t) = &activities[j2] {
                                        hit = reg_matches_trade(
                                            &t.price,
                                            &t.quantity,
                                            digits.as_str(),
                                            f,
                                        );
                                    }
                                    proof {
                                        assert(hit == trade_matches(s[j2 as int], ds@));
                                    }
                                    if hit {
                                        found = true;
                                    } else {
                                        j2 = j2 + 1;
                                    }
                                }
                                if found {
                                    proof {
                                        lemma_first_match_at(s, ds@, 0, j2 as int);
                                        assert(fee_attaches(s, i as int));
                                        assert(!offends(s, i as int));
                                    }
                                    tgt = Some(j2);
                                } else {
                                    proof {
                                        assert(!has_match(s, ds@));
                                        assert(offends(s, i as int));
                                        lemma_first_offender_at(s, 0, i as int);
                                    }
                                    return Err(Error::UnassociatedFee(desc.clone()));
                                }
                            } else if find_adr(ds) {
                                proof {
                                    assert(!offends(s, i as int));
                                    assert(!fee_attaches(s, i as int));
                                }
                            } else {
                                proof {
                                    assert(offends(s, i as int));
                                    lemma_first_offender_at(s, 0, i as int);
                                }
                                return Err(Error::UnclassifiableFee(desc.clone()));
                            }
                        }
                    },
                }
            }
        }
        proof {
            if !fee_handled {
                assert(!is_fee(s[i as int]));
                assert(!offends(s, i as int));
                assert(!fee_attaches(s, i as int));
            }
        }
        targets.push(tgt);
        i = i + 1;
    }
    proof {
        assert(!has_offender(s));
    }

    // Move the records into slots, so each trade can pull its fees from
    // either side of its own position.
    let mut src = activities;
    let mut slots: Vec<Option<Activity>> = Vec::new();
    let mut i: usize = 0;
    proof {
        assert(src@ =~= s.skip(0));
    }
    while i < n
        invariant
            slots@.len() == i,
            i <= n,
            src@ == s.skip(i as int),
            forall|p: int| 0 <= p < i ==> #[trigger] slots@[p] == Some(s[p]),
        decreases n - i,
    {
        let a = src.remove(0);
        proof {
            assert(src@ =~= s.skip(i as int + 1));
        }
        slots.push(Some(a));
        i = i + 1;
    }

    // Assemble the reconciled batch in order.
    proof {
        assert(forall|p: int| 0 <= p < n ==> #[trigger] slots@[p] == Some(s[p]));
    }
    let mut out: Vec<ReconciledActivity> = Vec::new();
    let mut j: usize = 0;
    while j < n
        invariant
            j <= n,
            slots@.len() == n,
            out@.len() == assoc_kept_before(s, j as int),
            forall|p: int|
                0 <= p < j && !fee_attaches(s, p) ==> 0 <= assoc_kept_before(s, p) < out@.len()
                    && reconciled_matches(s, p, out@[assoc_kept_before(s, p)]),
            forall|p: int|
                0 <= p < n ==> #[trigger] slots@[p] == if (targets@[p] matches Some(tj) && tj < j)
                    || (targets@[p] is None && p < j) {
                    None::<Activity>
                } else {
                    Some(s[p])
                },
        decreases n - j,
    {
        let is_attached = targets[j].is_some();
        if is_attached {
            proof {
                assert(fee_attaches(s, j as int));
                assert(assoc_kept_before(s, j as int + 1) == assoc_kept_before(s, j as int));
                assert forall|p: int|
                    0 <= p < n implies #[trigger] slots@[p] == if (targets@[p] matches Some(tj)
                    && tj < j + 1) || (targets@[p] is None && p < j + 1) {
                    None::<Activity>
                } else {
                    Some(s[p])
                } by {
                    if targets@[p] matches Some(tj) && tj == j {
                        // The target of an attaching fee is a trade, but the
                        // record at `j` is an attaching fee.
                        lemma_first_match_in_range(s, desc_of(s[p]), 0);
                        assert(trade_matches(s[fee_target(s, p)], desc_of(s[p])));
                        assert(s[j as int] is Trade);
                        assert(is_fee(s[j as int]));
                        assert(false);
                    }
                }
            }
        } else {
            proof {
                assert(!fee_attaches(s, j as int));
            }
            let a_opt = slots[j].take();
            if let Some(a) = a_opt {
                match a {
                    Activity::Trade(t) => {
                        let mut fees: Vec<NonTradeActivity> = Vec::new();
                        let mut i2: usize = 0;
                        while i2 < n
                            invariant
                                i2 <= n,
                                slots@.len() == n,
                                fees@ == fees_for_upto(s, j as int, i2 as int),
                                s[j as int] == Activity::Trade(t),
                                forall|p: int|
                                    0 <= p < n ==> #[trigger] slots@[p] == if (targets@[p]
                                        matches Some(tj) && (tj < j || (tj == j && p < i2))) || (
                                    targets@[p] is None && p <= j) {
                                        None::<Activity>
                                    } else {
                                        Some(s[p])
                                    },
                            decreases n - i2,
                        {
                            let take_it = match targets[i2] {
                                Some(tj) => tj == j,
                                None => false,
                            };
                            if take_it {
                                proof {
                                    assert(fee_attaches(s, i2 as int));
                                    assert(fee_target(s, i2 as int) == j as int);
                                    assert(i2 != j);
                                    assert(slots@[i2 as int] == Some(s[i2 as int]));
                                }
                                let f_opt = slots[i2].take();
                                if let Some(fa) = f_opt {
                                    if let Activity::NonTrade(nt) = fa {
                                        fees.push(nt);
                                        proof {
                                            assert(nt == non_trade_of(s[i2 as int]));
                                            assert(fees@ =~= fees_for_upto(
                                                s,
                                                j as int,
                                                i2 as int + 1,
                                            ));
                                        }
                                    } else {
                                        proof {
                                            assert(is_fee(s[i2 as int]));
                                            assert(false);
                                        }
                                    }
                                } else {
                                    proof {
                                        assert(false);
                                    }
                                }
                            } else {
                                proof {
                                    assert(fees_for_upto(s, j as int, i2 as int + 1)
                                        == fees_for_upto(s, j as int, i2 as int));
                                }
                            }
                            i2 = i2 + 1;
                        }
                        proof {
                            assert(reconciled_matches(
                                s,
                                j as int,
                                ReconciledActivity::Trade(t, fees),
                            ));
                            assert(assoc_kept_before(s, j as int + 1) == assoc_kept_before(
                                s,
                                j as int,
                            ) + 1);
                        }
                        out.push(ReconciledActivity::Trade(t, fees));
                    },
                    Activity::NonTrade(nt) => {
                        proof {
                            assert(reconciled_matches(
                                s,
                                j as int,
                                ReconciledActivity::NonTrade(nt),
                            ));
                            assert(assoc_kept_before(s, j as int + 1) == assoc_kept_before(
                                s,
                                j as int,
                            ) + 1);
                            // No fee can target this record: targets point at
                            // trades, and this one is a non-trade.
                            assert forall|p: int|
                                0 <= p < n implies !(#[trigger] targets@[p] matches Some(tj)
                                && tj == j) by {
                                if targets@[p] matches Some(tj) && tj == j {
                                    lemma_first_match_in_range(s, desc_of(s[p]), 0);
                                    assert(trade_matches(s[fee_target(s, p)], desc_of(s[p])));
                                    assert(s[j as int] is Trade);
                                }
                            }
                        }
                        out.push(ReconciledActivity::NonTrade(nt));
                    },
                }
            } else {
                proof {
                    assert(false);
                }
                return Err(Error::AmountOutOfRange);
            }
        }
        j = j + 1;
    }
    Ok(out)
}

/// Extraction round trip, share counts: a description built around the
/// share-count pattern with the canonical digits of `n` extracts exactly
/// `n`, whatever follows the pattern.
pub proof fn lemma_taf_round_trip(n: nat, tail: Seq<char>)
    ensures
        ({
            let d = taf_lit() + crate::text::spec_digits(n) + taf_tail() + tail;
            has_taf(d) && taf_shares_val(d) == n
        }),
{
    let digits = crate::text::spec_digits(n);
    let d = taf_lit() + digits + taf_tail() + tail;
    let j = taf_lit().len() as int;
    let k = j + digits.len();
    crate::text::lemma_spec_digits(n);
    reveal_strlit(" shares");
    assert(taf_tail()[0] == ' ');
    assert(!is_digit(d[k])) by {
        assert(d[k] == taf_tail()[0]);
    }
    assert(forall|m: int| j <= m < k ==> is_digit(#[trigger] d[m])) by {
        assert(forall|m: int| j <= m < k ==> #[trigger] d[m] == digits[m - j]);
    }
    crate::text::lemma_run_end_exact(d, j, k);
    assert(matches_at(d, taf_lit(), 0)) by {
        assert(d.subrange(0, j) =~= taf_lit());
    }
    assert(matches_at(d, taf_tail(), k)) by {
        assert(d.subrange(k, k + taf_tail().len()) =~= taf_tail());
    }
    assert(taf_match_at(d, 0));
    assert(first_taf_from(d, 0) == 0);
    assert(d.subrange(j, k) =~= digits);
}

/// Extraction round trip, money amounts: a description built around the
/// money pattern with canonical unit digits of `a` and fraction digits
/// `frac` extracts mantissa `a * 10^|frac| + frac` at scale `|frac|`,
/// whatever follows the pattern short of extending its last digit run.
pub proof fn lemma_money_round_trip(lit: Seq<char>, a: nat, frac: Seq<char>, tail: Seq<char>)
    requires
        all_digits(frac),
        frac.len() >= 1,
        tail.len() == 0 || !is_digit(tail[0]),
    ensures
        ({
            let d = lit + crate::text::spec_digits(a) + seq!['.'] + frac + tail;
            &&& has_money(d, lit)
            &&& money_mantissa(d, lit) == a * crate::decimal::pow10(frac.len())
                + crate::text::digits_val(frac)
            &&& money_scale(d, lit) == frac.len()
        }),
{
    let digits = crate::text::spec_digits(a);
    let d = lit + digits + seq!['.'] + frac + tail;
    let j = lit.len() as int;
    let k1 = j + digits.len();
    let k2 = k1 + 1 + frac.len();
    crate::text::lemma_spec_digits(a);
    assert(d[k1] == '.');
    assert(!is_digit(d[k1]));
    assert(forall|m: int| j <= m < k1 ==> is_digit(#[trigger] d[m])) by {
        assert(forall|m: int| j <= m < k1 ==> #[trigger] d[m] == digits[m - j]);
    }
    crate::text::lemma_run_end_exact(d, j, k1);
    assert(forall|m: int| k1 + 1 <= m < k2 ==> is_digit(#[trigger] d[m])) by {
        assert(forall|m: int|
            k1 + 1 <= m < k2 ==> #[trigger] d[m] == frac[m - (k1 + 1)]);
    }
    if k2 < d.len() {
        assert(d[k2] == tail[0]);
    }
    crate::text::lemma_run_end_exact(d, k1 + 1, k2);
    assert(matches_at(d, lit, 0)) by {
        assert(d.subrange(0, j) =~= lit);
    }
    assert(money_match_at(d, lit, 0));
    assert(first_money_from(d, lit, 0) == 0);
    assert(d.subrange(j, k1) =~= digits);
    assert(d.subrange(k1 + 1, k2) =~= frac);
    crate::text::lemma_digits_val_concat(digits, frac);
}

/// A fee record attached within `fees_for_upto` stays in the list as the
/// bound grows.
proof fn lemma_fees_for_contains(s: Seq<Activity>, j: int, i: int, n: int)
    requires
        0 <= i < n <= s.len(),
        fee_attaches(s, i),
        fee_target(s, i) == j,
    ensures
        fees_for_upto(s, j, n).contains(non_trade_of(s[i])),
    decreases n,
{
    if n == i + 1 {
        let prev = fees_for_upto(s, j, i);
        assert(fees_for_upto(s, j, n) == prev + seq![non_trade_of(s[i])]);
        assert(fees_for_upto(s, j, n)[prev.len() as int] == non_trade_of(s[i]));
    } else {
        lemma_fees_for_contains(s, j, i, n - 1);
        let prev = fees_for_upto(s, j, n - 1);
        let w = choose|w: int| 0 <= w < prev.len() && prev[w] == non_trade_of(s[i]);
        assert(fees_for_upto(s, j, n)[w] == non_trade_of(s[i]));
    }
}

/// A share-count fee whose extracted count names a trade's quantity joins
/// that trade: when the trade at `j` is the first match of the fee's
/// description, association attaches the fee there, and the fee stands in
/// that trade's fee list.
pub proof fn lemma_taf_fee_attaches(s: Seq<Activity>, i: int, j: int)
    requires
        0 <= i < s.len(),
        0 <= j < s.len(),
        is_fee(s[i]),
        non_trade_of(s[i]).description is Some,
        has_taf(desc_of(s[i])),
        trade_matches(s[j], desc_of(s[i])),
        forall|q: int| 0 <= q < j ==> !trade_matches(#[trigger] s[q], desc_of(s[i])),
    ensures
        fee_attaches(s, i),
        fee_target(s, i) == j,
        fees_for(s, j).contains(non_trade_of(s[i])),
{
    assert(has_match(s, desc_of(s[i])));
    lemma_first_match_at(s, desc_of(s[i]), 0, j);
    lemma_fees_for_contains(s, j, i, s.len() as int);
}

/// A depositary-receipt fee is never attached to any trade: association
/// neither rejects it nor moves it, so it stands alone in the reconciled
/// batch, as `associate_fees_with_trades` ensures of unattached records.
pub proof fn lemma_adr_fee_standalone(s: Seq<Activity>, i: int)
    requires
        0 <= i < s.len(),
        is_fee(s[i]),
        non_trade_of(s[i]).description is Some,
        !has_taf(desc_of(s[i])),
        !has_reg(desc_of(s[i])),
        is_adr(desc_of(s[i])),
    ensures
        !fee_attaches(s, i),
        !offends(s, i),
{
}

} // verus!
