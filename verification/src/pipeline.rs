//! The per-day pipeline: merge partial fills, associate fees, render.
//!
//! One day-batch flows through the stages in order and fail-fast: a merge
//! overflow or an unassociable fee rejects the batch before anything
//! renders; a rendering failure keeps the blocks rendered before it, which
//! the caller will already have written out.

use vstd::prelude::*;
use crate::activity::{Activity, NonTradeActivity, ReconciledActivity};
use crate::error::Error;
use crate::merge::{merge_partial_fills, merge_spec, merge_overflows, MAX_BATCH};
use crate::fees::{
    associate_fees_with_trades,
    has_offender,
    first_offender_from,
    offense_error,
    fee_attaches,
    assoc_kept_before,
    reconciled_matches,
    non_trade_of,
    acq_lit,
    money_mantissa,
    money_scale,
};
use crate::render::{
    Registry,
    render_trade,
    render_non_trade,
    render_trade_ok,
    render_trade_err,
    render_non_trade_ok,
    render_non_trade_err,
    render_non_trade_emits,
    spec_render_trade,
    spec_render_transfer,
    spec_render_interest,
    spec_render_dividend,
    spec_render_passthru,
    spec_render_standalone_fee,
    spec_render_acquisition,
    spec_render_split,
    frac_val9,
};
use crate::decimal::{pow10, representable};
use crate::activity::NonTradeKind;

verus! {

/// What turning a record into a reconciled record without association
/// leaves: a trade with no fees, or the record standing alone.
pub open spec fn standalone_matches(m: Seq<Activity>, p: int, rec: ReconciledActivity) -> bool {
    if m[p] is Trade {
        rec matches ReconciledActivity::Trade(t, fees) && t == m[p]->Trade_0 && fees@ == Seq::<
            NonTradeActivity,
        >::empty()
    } else {
        rec == ReconciledActivity::NonTrade(non_trade_of(m[p]))
    }
}

/// Turn every record into a standalone reconciled record, the association
/// bypass behind the force-separate-fees switch.
pub fn separate_all(activities: Vec<Activity>) -> (r: Vec<ReconciledActivity>)
    ensures
        r@.len() == activities@.len(),
        forall|p: int|
            0 <= p < activities@.len() ==> standalone_matches(activities@, p, #[trigger] r@[p]),
{
    let ghost s = activities@;
    let n = activities.len();
    let mut src = activities;
    let mut out: Vec<ReconciledActivity> = Vec::new();
    let mut i: usize = 0;
    proof {
        assert(src@ =~= s.skip(0));
    }
    while i < n
        invariant
            i <= n,
            n == s.len(),
            src@ == s.skip(i as int),
            out@.len() == i,
            forall|p: int| 0 <= p < i ==> standalone_matches(s, p, #[trigger] out@[p]),
        decreases n - i,
    {
        let a = src.remove(0);
        proof {
            assert(a == s[i as int]);
            assert(src@ =~= s.skip(i as int + 1));
        }
        match a {
            Activity::Trade(t) => {
                out.push(ReconciledActivity::Trade(t, Vec::new()));
            },
            Activity::NonTrade(nt) => {
                out.push(ReconciledActivity::NonTrade(nt));
            },
        }
        i = i + 1;
    }
    out
}

/// The block a non-trade record renders as, when it renders and emits.
/// For an acquisition the implied share count is the unique representable
/// amount whose product with the share price gives the net amount.
pub open spec fn spec_non_trade_block(
    n: NonTradeActivity,
    registry: Registry,
    investment: Seq<char>,
    brokerage: Seq<char>,
    brokerage_fee: Seq<char>,
    dividend: Seq<char>,
    sec_fee: Seq<char>,
    finra_taf: Seq<char>,
    currency: Seq<char>,
) -> Seq<char> {
    match n.kind {
        NonTradeKind::CashDeposit => spec_render_transfer(n, brokerage, currency),
        NonTradeKind::CashWithdrawal => spec_render_transfer(n, brokerage, currency),
        NonTradeKind::Interest => spec_render_interest(n, brokerage, currency),
        NonTradeKind::Dividend => spec_render_dividend(
            n,
            registry.spec_get(n.symbol->Some_0@)->Some_0,
            dividend,
            brokerage,
            currency,
        ),
        NonTradeKind::PassThruCharge => spec_render_passthru(
            n,
            brokerage_fee,
            brokerage,
            currency,
        ),
        NonTradeKind::Fee => spec_render_standalone_fee(
            n,
            brokerage,
            brokerage_fee,
            sec_fee,
            finra_taf,
            currency,
        ),
        NonTradeKind::Acquisition => {
            let d = n.description->Some_0@;
            let pv = frac_val9(money_mantissa(d, acq_lit()), money_scale(d, acq_lit()) as nat);
            let qv = choose|qv: int|
                representable(qv) && #[trigger] (qv * pv) == n.net_amount@ * pow10(9);
            spec_render_acquisition(
                n,
                registry.spec_get(n.symbol->Some_0@)->Some_0,
                pv,
                qv,
                investment,
                brokerage,
                currency,
            )
        },
        NonTradeKind::StockSplit => spec_render_split(
            n,
            registry.spec_get(n.symbol->Some_0@)->Some_0,
            investment,
            brokerage,
            currency,
        ),
        NonTradeKind::Other => Seq::empty(),
    }
}

/// Render a reconciled batch from index `q` on, fail-fast: the blocks of
/// the records that render, in order, up to the first failure, with its
/// error.
pub open spec fn render_all_from(
    rs: Seq<ReconciledActivity>,
    q: int,
    registry: Registry,
    investment: Seq<char>,
    brokerage: Seq<char>,
    brokerage_fee: Seq<char>,
    dividend: Seq<char>,
    sec_fee: Seq<char>,
    finra_taf: Seq<char>,
    currency: Seq<char>,
) -> (Seq<Seq<char>>, Option<Error>)
    decreases rs.len() - q,
{
    if 0 <= q < rs.len() {
        let rest = render_all_from(
            rs,
            q + 1,
            registry,
            investment,
            brokerage,
            brokerage_fee,
            dividend,
            sec_fee,
            finra_taf,
            currency,
        );
        match rs[q] {
            ReconciledActivity::Trade(t, fees) => {
                if render_trade_ok(t, fees@, registry) {
                    (
                        seq![
                            spec_render_trade(
                                t,
                                fees@,
                                registry.spec_get(t.symbol@)->Some_0,
                                investment,
                                brokerage,
                                brokerage_fee,
                                sec_fee,
                                finra_taf,
                                currency,
                            ),
                        ] + rest.0,
                        rest.1,
                    )
                } else {
                    (Seq::empty(), Some(render_trade_err(t, fees@, registry)))
                }
            },
            ReconciledActivity::NonTrade(n) => {
                if render_non_trade_ok(n, registry) {
                    if render_non_trade_emits(n) {
                        (
                            seq![
                                spec_non_trade_block(
                                    n,
                                    registry,
                                    investment,
                                    brokerage,
                                    brokerage_fee,
                                    dividend,
                                    sec_fee,
                                    finra_taf,
                                    currency,
                                ),
                            ] + rest.0,
                            rest.1,
                        )
                    } else {
                        rest
                    }
                } else {
                    (Seq::empty(), Some(render_non_trade_err(n, registry)))
                }
            },
        }
    } else {
        (Seq::empty(), None)
    }
}

/// Run one day-batch through the pipeline: merge its partial fills,
/// associate its regulatory fees (unless forced separate), and render each
/// reconciled record. Returns the blocks rendered, in order, and the first
/// error if one stopped the batch; blocks rendered before the error stay.
#[verifier::loop_isolation(false)]
#[verifier::rlimit(100)]
pub fn process_day(
    activities: Vec<Activity>,
    force_separate_fees: bool,
    investment_account: &str,
    brokerage_account: &str,
    brokerage_fee_account: &str,
    dividend_account: &str,
    sec_fee_account: &str,
    finra_taf_account: &str,
    registry: &Registry,
    currency: &str,
) -> (r: (Vec<String>, Option<Error>))
    requires
        activities@.len() <= MAX_BATCH,
    ensures
        merge_overflows(activities@) ==> r.0@.len() == 0 && r.1 == Some(Error::AmountOutOfRange),
        (!merge_overflows(activities@) && !force_separate_fees && has_offender(
            merge_spec(activities@),
        )) ==> r.0@.len() == 0 && r.1 == Some(
            offense_error(
                merge_spec(activities@),
                first_offender_from(merge_spec(activities@), 0),
            ),
        ),
        (!merge_overflows(activities@) && (force_separate_fees || !has_offender(
            merge_spec(activities@),
        ))) ==> exists|rs: Seq<ReconciledActivity>|
            #![trigger rs.len()]
            {
                let m = merge_spec(activities@);
                let rendered = render_all_from(
                    rs,
                    0,
                    *registry,
                    investment_account@,
                    brokerage_account@,
                    brokerage_fee_account@,
                    dividend_account@,
                    sec_fee_account@,
                    finra_taf_account@,
                    currency@,
                );
                &&& (if force_separate_fees {
                    rs.len() == m.len() && forall|p: int|
                        0 <= p < m.len() ==> standalone_matches(m, p, #[trigger] rs[p])
                } else {
                    rs.len() == assoc_kept_before(m, m.len() as int) && forall|p: int|
                        0 <= p < m.len() && !fee_attaches(m, p) ==> 0 <= assoc_kept_before(m, p)
                            < rs.len() && reconciled_matches(
                            m,
                            p,
                            #[trigger] rs[assoc_kept_before(m, p)],
                        )
                })
                &&& r.0@.len() == rendered.0.len()
                &&& (forall|b: int| 0 <= b < rendered.0.len() ==> #[trigger] r.0@[b]@
                    == rendered.0[b])
                &&& r.1 == rendered.1
            },
{
    let merged = match merge_partial_fills(activities) {
        Ok(v) => v,
        Err(e) => {
            return (Vec::new(), Some(e));
        },
    };
    let recon: Vec<ReconciledActivity> = if force_separate_fees {
        separate_all(merged)
    } else {
        match associate_fees_with_trades(merged) {
            Ok(v) => v,
            Err(e) => {
                return (Vec::new(), Some(e));
            },
        }
    };
    let ghost rs = recon@;
    let nq = recon.len();
    let mut blocks: Vec<String> = Vec::new();
    let mut q: usize = 0;
    while q < nq
        invariant
            q <= nq,
            nq == rs.len(),
            recon@ == rs,
            ({
                let full = render_all_from(
                    rs,
                    0,
                    *registry,
                    investment_account@,
                    brokerage_account@,
                    brokerage_fee_account@,
                    dividend_account@,
                    sec_fee_account@,
                    finra_taf_account@,
                    currency@,
                );
                let rem = render_all_from(
                    rs,
                    q as int,
                    *registry,
                    investment_account@,
                    brokerage_account@,
                    brokerage_fee_account@,
                    dividend_account@,
                    sec_fee_account@,
                    finra_taf_account@,
                    currency@,
                );
                &&& full.0.len() == blocks@.len() + rem.0.len()
                &&& (forall|b: int|
                    0 <= b < blocks@.len() ==> #[trigger] full.0[b] == blocks@[b]@)
                &&& (forall|b: int|
                    0 <= b < rem.0.len() ==> full.0[blocks@.len() + b] == #[trigger] rem.0[b])
                &&& full.1 == rem.1
            }),
        decreases nq - q,
    {
        let ghost full = render_all_from(
            rs,
            0,
            *registry,
            investment_account@,
            brokerage_account@,
            brokerage_fee_account@,
            dividend_account@,
            sec_fee_account@,
            finra_taf_account@,
            currency@,
        );
        let ghost remq = render_all_from(
            rs,
            q as int,
            *registry,
            investment_account@,
            brokerage_account@,
            brokerage_fee_account@,
            dividend_account@,
            sec_fee_account@,
            finra_taf_account@,
            currency@,
        );
        let ghost remq1 = render_all_from(
            rs,
            q as int + 1,
            *registry,
            investment_account@,
            brokerage_account@,
            brokerage_fee_account@,
            dividend_account@,
            sec_fee_account@,
            finra_taf_account@,
            currency@,
        );
        match &recon[q] {
            ReconciledActivity::Trade(t, fees) => {
                match render_trade(
                    t,
                    fees,
                    investment_account,
                    brokerage_account,
                    brokerage_fee_account,
                    sec_fee_account,
                    finra_taf_account,
                    registry,
                    currency,
                ) {
                    Ok(block) => {
                        proof {
                            assert(remq.0 == seq![block@] + remq1.0 && remq.1 == remq1.1);
                            assert(full.0[blocks@.len() as int] == remq.0[0]);
                            assert(remq.0[0] == block@);
                            assert forall|b: int|
                                0 <= b < remq1.0.len() implies #[trigger] remq1.0[b] == remq.0[b + 1] by {
                                assert(remq.0[b + 1] == (seq![block@] + remq1.0)[b + 1]);
                            }
                            assert forall|b: int|
                                0 <= b < remq1.0.len() implies full.0[blocks@.len() + 1 + b]
                                == #[trigger] remq1.0[b] by {
                                assert(full.0[blocks@.len() + (b + 1)] == remq.0[b + 1]);
                            }
                        }
                        blocks.push(block);
                    },
                    Err(e) => {
                        proof {
                            assert(remq.0 =~= Seq::<Seq<char>>::empty());
                            assert(remq.1 == Some(e));
                        }
                        return (blocks, Some(e));
                    },
                }
            },
            ReconciledActivity::NonTrade(n) => {
                match render_non_trade(
                    n,
                    investment_account,
                    brokerage_account,
                    brokerage_fee_account,
                    dividend_account,
                    sec_fee_account,
                    finra_taf_account,
                    registry,
                    currency,
                ) {
                    Ok(Some(block)) => {
                        proof {
                            if n.kind == NonTradeKind::Acquisition && n.net_amount@ != 0 {
                                lemma_acq_block_unique(*n, *registry);
                            }
                            assert(block@ == spec_non_trade_block(
                                *n,
                                *registry,
                                investment_account@,
                                brokerage_account@,
                                brokerage_fee_account@,
                                dividend_account@,
                                sec_fee_account@,
                                finra_taf_account@,
                                currency@,
                            ));
                            assert(remq.0 == seq![block@] + remq1.0 && remq.1 == remq1.1);
                            assert(full.0[blocks@.len() as int] == remq.0[0]);
                            assert(remq.0[0] == block@);
                            assert forall|b: int|
                                0 <= b < remq1.0.len() implies #[trigger] remq1.0[b] == remq.0[b + 1] by {
                                assert(remq.0[b + 1] == (seq![block@] + remq1.0)[b + 1]);
                            }
                            assert forall|b: int|
                                0 <= b < remq1.0.len() implies full.0[blocks@.len() + 1 + b]
                                == #[trigger] remq1.0[b] by {
                                assert(full.0[blocks@.len() + (b + 1)] == remq.0[b + 1]);
                            }
                        }
                        blocks.push(block);
                    },
                    Ok(None) => {
                        proof {
                            assert(remq == remq1);
                        }
                    },
                    Err(e) => {
                        proof {
                            assert(remq.0 =~= Seq::<Seq<char>>::empty());
                            assert(remq.1 == Some(e));
                        }
                        return (blocks, Some(e));
                    },
                }
            },
        }
        q = q + 1;
    }
    (blocks, None)
}

/// The acquisition block's implied quantity is unique, so the rendered
/// block equals the one the specification chooses.
proof fn lemma_acq_block_unique(n: NonTradeActivity, registry: Registry)
    requires
        n.kind == NonTradeKind::Acquisition,
        render_non_trade_ok(n, registry),
        n.net_amount@ != 0,
    ensures
        ({
            let d = n.description->Some_0@;
            let pv = frac_val9(money_mantissa(d, acq_lit()), money_scale(d, acq_lit()) as nat);
            forall|qv: int|
                (representable(qv) && #[trigger] (qv * pv) == n.net_amount@ * pow10(9)) ==> qv
                    == (choose|qv2: int|
                    representable(qv2) && #[trigger] (qv2 * pv) == n.net_amount@ * pow10(9))
        }),
{
    let d = n.description->Some_0@;
    let pv = frac_val9(money_mantissa(d, acq_lit()), money_scale(d, acq_lit()) as nat);
    assert forall|qv: int|
        (representable(qv) && #[trigger] (qv * pv) == n.net_amount@ * pow10(9)) implies qv == (
    choose|qv2: int| representable(qv2) && #[trigger] (qv2 * pv) == n.net_amount@ * pow10(9)) by {
        let qv2 = choose|qv2: int|
            representable(qv2) && #[trigger] (qv2 * pv) == n.net_amount@ * pow10(9);
        if pv > 0 {
            crate::decimal::lemma_mul_cancel(qv, qv2, pv);
        } else {
            assert(-qv * -pv == qv * pv) by (nonlinear_arith);
            assert(-qv2 * -pv == qv2 * pv) by (nonlinear_arith);
            crate::decimal::lemma_mul_cancel(-qv, -qv2, -pv);
        }
    }
}

} // verus!
