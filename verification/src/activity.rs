//! The activity model: trade and non-trade feed records, and the reconciled
//! records the pipeline hands to the renderer.
//!
//! Records are plain data. Amounts are exact `Decimal`s and timestamps are
//! reduced to the calendar day they fall on, which is all the
//! reconciliation rules ever read.

use vstd::prelude::*;
use crate::date::Date;
use crate::decimal::Decimal;

verus! {

/// The side of an order execution.
#[derive(Clone, Copy, Debug, PartialEq, Eq, Structural)]
pub enum Side {
    Buy,
    Sell,
    ShortSell,
}

/// The kind of a non-trade activity. Kinds the renderer does not know are
/// carried as `Other` and ignored.
#[derive(Clone, Copy, Debug, PartialEq, Eq, Structural)]
pub enum NonTradeKind {
    Dividend,
    Interest,
    CashDeposit,
    CashWithdrawal,
    PassThruCharge,
    Fee,
    Acquisition,
    StockSplit,
    Other,
}

/// An order execution record: one full or partial fill.
#[verifier::ext_equal]
#[derive(Debug)]
pub struct TradeActivity {
    /// The feed's identifier for this record; the pagination cursor.
    pub id: String,
    /// The order this fill belongs to.
    pub order_id: String,
    pub symbol: String,
    pub side: Side,
    pub price: Decimal,
    /// The quantity this record fills; merging partial fills adds here.
    pub quantity: Decimal,
    /// The total filled so far for the order, as the feed reports it.
    pub cumulative_quantity: Decimal,
    /// What remains open; zero marks the terminal fill of an order.
    pub unfilled_quantity: Decimal,
    /// The calendar day of the execution.
    pub date: Date,
}

/// A non-trade activity: dividend, fee, transfer, corporate action.
#[verifier::ext_equal]
#[derive(Debug)]
pub struct NonTradeActivity {
    /// The feed's identifier for this record; the pagination cursor.
    pub id: String,
    pub kind: NonTradeKind,
    pub date: Date,
    pub net_amount: Decimal,
    pub symbol: Option<String>,
    pub description: Option<String>,
    pub price: Option<Decimal>,
    pub quantity: Option<Decimal>,
}

/// One feed record.
#[verifier::ext_equal]
#[derive(Debug)]
pub enum Activity {
    Trade(TradeActivity),
    NonTrade(NonTradeActivity),
}

/// A record after fee association: a trade with the fees it pays, or a
/// standalone non-trade activity.
#[verifier::ext_equal]
#[derive(Debug)]
pub enum ReconciledActivity {
    Trade(TradeActivity, Vec<NonTradeActivity>),
    NonTrade(NonTradeActivity),
}

impl Activity {
    /// The calendar day this activity belongs to.
    pub open spec fn spec_date(self) -> Date {
        match self {
            Activity::Trade(t) => t.date,
            Activity::NonTrade(n) => n.date,
        }
    }

    /// The calendar day this activity belongs to.
    pub fn date(&self) -> (r: Date)
        ensures
            r == self.spec_date(),
    {
        match self {
            Activity::Trade(t) => t.date,
            Activity::NonTrade(n) => n.date,
        }
    }

    /// The feed identifier of this record.
    pub fn id(&self) -> (r: &String)
        ensures
            r == self.spec_id(),
    {
        match self {
            Activity::Trade(t) => &t.id,
            Activity::NonTrade(n) => &n.id,
        }
    }

    /// The feed identifier of this record.
    pub open spec fn spec_id(self) -> String {
        match self {
            Activity::Trade(t) => t.id,
            Activity::NonTrade(n) => n.id,
        }
    }
}

/// The decimals of a trade record are canonical (their type invariant).
/// Spec-level sequences carry this as an explicit fact.
pub open spec fn trade_wf(t: TradeActivity) -> bool {
    &&& t.price.inv()
    &&& t.quantity.inv()
    &&& t.cumulative_quantity.inv()
    &&& t.unfilled_quantity.inv()
}

/// The decimals of a non-trade record are canonical.
pub open spec fn non_trade_wf(n: NonTradeActivity) -> bool {
    &&& n.net_amount.inv()
    &&& (n.price matches Some(p) ==> p.inv())
    &&& (n.quantity matches Some(q) ==> q.inv())
}

/// The decimals of a record are canonical.
pub open spec fn act_wf(a: Activity) -> bool {
    match a {
        Activity::Trade(t) => trade_wf(t),
        Activity::NonTrade(n) => non_trade_wf(n),
    }
}

/// The decimals of every record of `s` are canonical.
pub open spec fn acts_wf(s: Seq<Activity>) -> bool {
    forall|i: int| 0 <= i < s.len() ==> act_wf(#[trigger] s[i])
}

/// Every exec-held record satisfies `act_wf`: the decimals inside carry
/// their type invariant.
pub fn observe_act_wf(a: &Activity)
    ensures
        act_wf(*a),
{
    match a {
        Activity::Trade(t) => {
            proof {
                use_type_invariant(&t.price);
                use_type_invariant(&t.quantity);
                use_type_invariant(&t.cumulative_quantity);
                use_type_invariant(&t.unfilled_quantity);
            }
        },
        Activity::NonTrade(n) => {
            proof {
                use_type_invariant(&n.net_amount);
            }
            if let Some(p) = &n.price {
                proof {
                    use_type_invariant(p);
                }
            }
            if let Some(q) = &n.quantity {
                proof {
                    use_type_invariant(q);
                }
            }
        },
    }
}

} // verus!
