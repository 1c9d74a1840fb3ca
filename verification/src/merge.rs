//! Partial fill merging.
//!
//! The feed reports an order's partial fills as separate trade records. A
//! batch is merged by folding every partial fill (nonzero
//! `unfilled_quantity`) whose terminal fill (zero `unfilled_quantity`, same
//! order and price) lies in the same batch into that terminal record,
//! adding its quantity there. Records keep their order; a partial fill with
//! no terminal fill in the batch stays as it is, a best-effort limit when
//! an order's fills span two batches.

use vstd::prelude::*;
use crate::activity::{Activity, TradeActivity, act_wf, acts_wf, observe_act_wf};
use crate::decimal::{Decimal, dec_of, representable, lemma_dec_of, lemma_pow10_values};
use crate::error::Error;

verus! {

/// The largest batch the merger accepts; a machine limit that keeps its
/// quantity sums inside `i128`.
pub const MAX_BATCH: usize = 1_000_000_000;

/// The trade inside a trade record.
pub open spec fn trade_of(a: Activity) -> TradeActivity
    recommends
        a is Trade,
{
    a->Trade_0
}

/// A trade record that does not complete its order.
pub open spec fn is_partial(a: Activity) -> bool {
    a matches Activity::Trade(t) && t.unfilled_quantity@ != 0
}

/// A trade record that completes its order.
pub open spec fn is_terminal(a: Activity) -> bool {
    a matches Activity::Trade(t) && t.unfilled_quantity@ == 0
}

/// A terminal fill for the given order at the given price (in billionths).
pub open spec fn is_terminal_for(c: Activity, order_id: Seq<char>, price: int) -> bool {
    c matches Activity::Trade(u)
        && u.order_id@ == order_id
        && u.price@ == price
        && u.unfilled_quantity@ == 0
}

/// Whether the batch holds a terminal fill for the order and price.
pub open spec fn has_terminal(s: Seq<Activity>, order_id: Seq<char>, price: int) -> bool {
    exists|k: int| 0 <= k < s.len() && is_terminal_for(#[trigger] s[k], order_id, price)
}

/// The first terminal fill at or after `i`, or the length when none is.
pub open spec fn first_terminal_from(
    s: Seq<Activity>,
    order_id: Seq<char>,
    price: int,
    i: int,
) -> int
    decreases s.len() - i,
{
    if 0 <= i < s.len() {
        if is_terminal_for(s[i], order_id, price) {
            i
        } else {
            first_terminal_from(s, order_id, price, i + 1)
        }
    } else {
        i
    }
}

/// The first terminal fill of the batch for the order and price.
pub open spec fn first_terminal(s: Seq<Activity>, order_id: Seq<char>, price: int) -> int {
    first_terminal_from(s, order_id, price, 0)
}

/// A partial fill that merging removes: its terminal fill is in the batch.
pub open spec fn dropped(s: Seq<Activity>, i: int) -> bool {
    is_partial(s[i]) && has_terminal(s, trade_of(s[i]).order_id@, trade_of(s[i]).price@)
}

/// The quantity (in billionths) absorbed into index `k` by the dropped
/// partial fills among the first `n` records.
pub open spec fn absorbed_upto(s: Seq<Activity>, k: int, n: int) -> int
    decreases n,
{
    if n <= 0 {
        0
    } else {
        absorbed_upto(s, k, n - 1) + if dropped(s, n - 1) && first_terminal(
            s,
            trade_of(s[n - 1]).order_id@,
            trade_of(s[n - 1]).price@,
        ) == k {
            trade_of(s[n - 1]).quantity@
        } else {
            0
        }
    }
}

/// The quantity absorbed into index `k` by the whole batch.
pub open spec fn absorbed(s: Seq<Activity>, k: int) -> int {
    absorbed_upto(s, k, s.len() as int)
}

/// What merging leaves at index `k`: a terminal fill grows by what it
/// absorbs; everything else is untouched.
pub open spec fn merged_at(s: Seq<Activity>, k: int) -> Activity {
    if is_terminal(s[k]) {
        Activity::Trade(
            TradeActivity {
                quantity: dec_of(trade_of(s[k]).quantity@ + absorbed(s, k)),
                ..trade_of(s[k])
            },
        )
    } else {
        s[k]
    }
}

/// The merged batch, built from index `i` on: dropped partial fills leave,
/// everything else stays in order with terminal quantities grown.
pub open spec fn merge_spec_from(s: Seq<Activity>, i: int) -> Seq<Activity>
    decreases s.len() - i,
{
    if 0 <= i < s.len() {
        if dropped(s, i) {
            merge_spec_from(s, i + 1)
        } else {
            seq![merged_at(s, i)] + merge_spec_from(s, i + 1)
        }
    } else {
        Seq::empty()
    }
}

/// The merged batch.
pub open spec fn merge_spec(s: Seq<Activity>) -> Seq<Activity> {
    merge_spec_from(s, 0)
}

/// Whether some terminal fill's merged quantity falls outside the exactly
/// representable range; the one failure merging can report.
pub open spec fn merge_overflows(s: Seq<Activity>) -> bool {
    exists|k: int|
        0 <= k < s.len() && is_terminal(#[trigger] s[k]) && !representable(
            trade_of(s[k]).quantity@ + absorbed(s, k),
        )
}

/// A found terminal fill with none before it is the first one.
proof fn lemma_first_terminal_at(s: Seq<Activity>, order_id: Seq<char>, price: int, i: int, k: int)
    requires
        0 <= i <= k < s.len(),
        is_terminal_for(s[k], order_id, price),
        forall|j: int| i <= j < k ==> !is_terminal_for(#[trigger] s[j], order_id, price),
    ensures
        first_terminal_from(s, order_id, price, i) == k,
    decreases k - i,
{
    if i < k {
        lemma_first_terminal_at(s, order_id, price, i + 1, k);
    }
}

/// Each absorbed sum is bounded by the batch length times the largest
/// amount a record can hold.
proof fn lemma_absorbed_bound(s: Seq<Activity>, k: int, n: int)
    requires
        acts_wf(s),
        0 <= n <= s.len(),
    ensures
        -(n * 100000000000000000000000) <= absorbed_upto(s, k, n) <= n
            * 100000000000000000000000,
    decreases n,
{
    if n > 0 {
        lemma_absorbed_bound(s, k, n - 1);
        if dropped(s, n - 1) && first_terminal(
            s,
            trade_of(s[n - 1]).order_id@,
            trade_of(s[n - 1]).price@,
        ) == k {
            assert(act_wf(s[n - 1]));
            trade_of(s[n - 1]).quantity.lemma_view_representable();
            lemma_pow10_values();
        }
    }
}

/// Merge the partial fills of one batch.
///
/// On success the result is exactly `merge_spec` of the input: same
/// records in the same order, minus the partial fills whose terminal fill
/// the batch holds, whose quantities were added onto those terminal fills.
/// The one failure is a merged quantity outside the representable range.
#[verifier::loop_isolation(false)]
pub fn merge_partial_fills(activities: Vec<Activity>) -> (r: Result<Vec<Activity>, Error>)
    requires
        activities@.len() <= MAX_BATCH,
    ensures
        r matches Ok(v) ==> v@ == merge_spec(activities@),
        r is Err <==> merge_overflows(activities@),
        r matches Err(e) ==> e is AmountOutOfRange,
{
    let ghost s = activities@;
    let n = activities.len();

    // The decimals of every record are canonical.
    let mut i: usize = 0;
    while i < n
        invariant
            n == s.len(),
            activities@ == s,
            forall|j: int| 0 <= j < i ==> act_wf(#[trigger] s[j]),
        decreases n - i,
    {
        observe_act_wf(&activities[i]);
        i = i + 1;
    }
    assert(acts_wf(s));

    // For each partial fill, find the first terminal fill of its order and
    // price, if the batch holds one.
    let mut targets: Vec<Option<usize>> = Vec::new();
    let mut i: usize = 0;
    while i < n
        invariant
            n == s.len(),
            activities@ == s,
            acts_wf(s),
            targets@.len() == i,
            i <= n,
            forall|p: int|
                0 <= p < i ==> (dropped(s, p) <==> #[trigger] targets@[p] is Some),
            forall|p: int|
                0 <= p < i ==> (#[trigger] targets@[p] matches Some(k) ==> k == first_terminal(
                    s,
                    trade_of(s[p]).order_id@,
                    trade_of(s[p]).price@,
                )),
        decreases n - i,
    {
        let mut tgt: Option<usize> = None;
        if let Activity::Trade(t) = &activities[i] {
            if !t.unfilled_quantity.is_zero() {
                let ghost oid = t.order_id@;
                let ghost price = t.price@;
                let mut j: usize = 0;
                let mut found = false;
                while j < n && !found
                    invariant
                        n == s.len(),
                        activities@ == s,
                        j <= n,
                        s[i as int] == Activity::Trade(*t),
                        oid == t.order_id@,
                        price == t.price@,
                        !found ==> forall|q: int|
                            0 <= q < j ==> !is_terminal_for(#[trigger] s[q], oid, price),
                        found ==> j < n && is_terminal_for(s[j as int], oid, price)
                            && forall|q: int|
                            0 <= q < j ==> !is_terminal_for(#[trigger] s[q], oid, price),
                    decreases n - j, if found { 0int } else { 1int },
                {
                    let mut hit = false;
                    if let Activity::Trade(u) = &activities[j] {
                        if u.order_id == t.order_id && u.price.eq_value(&t.price)
                            && u.unfilled_quantity.is_zero() {
                            hit = true;
                        }
                    }
                    if hit {
                        found = true;
                    } else {
                        proof {
                            assert(!is_terminal_for(s[j as int], oid, price));
                        }
                        j = j + 1;
                    }
                }
                if found {
                    proof {
                        lemma_first_terminal_at(s, oid, price, 0, j as int);
                    }
                    tgt = Some(j);
                } else {
                    proof {
                        assert(!has_terminal(s, oid, price));
                    }
                }
            }
        }
        targets.push(tgt);
        i = i + 1;
    }

    // Sum, onto each terminal fill, the quantities it absorbs.
    let mut addend: Vec<i128> = Vec::new();
    let mut i: usize = 0;
    while i < n
        invariant
            addend@.len() == i,
            i <= n,
            forall|k: int| 0 <= k < i ==> addend@[k] == 0,
        decreases n - i,
    {
        addend.push(0);
        i = i + 1;
    }
    let mut i: usize = 0;
    while i < n
        invariant
            n == s.len() <= MAX_BATCH,
            activities@ == s,
            acts_wf(s),
            targets@.len() == n,
            addend@.len() == n,
            i <= n,
            forall|p: int|
                0 <= p < n ==> (dropped(s, p) <==> #[trigger] targets@[p] is Some),
            forall|p: int|
                0 <= p < n ==> (#[trigger] targets@[p] matches Some(k) ==> k == first_terminal(
                    s,
                    trade_of(s[p]).order_id@,
                    trade_of(s[p]).price@,
                )),
            forall|k: int| 0 <= k < n ==> addend@[k] == absorbed_upto(s, k, i as int),
            forall|k: int|
                0 <= k < n ==> -(i as int * 100000000000000000000000) <= #[trigger] addend@[k]
                    <= i as int * 100000000000000000000000,
        decreases n - i,
    {
        let tgt = targets[i];
        if let Some(k) = tgt {
            proof {
                assert(dropped(s, i as int));
            }
            if let Activity::Trade(t) = &activities[i] {
                proof {
                    use_type_invariant(&t.quantity);
                    t.quantity.lemma_view_representable();
                    lemma_pow10_values();
                    assert(first_terminal(s, t.order_id@, t.price@) == k as int);
                    // The first terminal fill lies inside the batch.
                    assert(has_terminal(s, t.order_id@, t.price@));
                    let w = choose|w: int|
                        0 <= w < s.len() && is_terminal_for(#[trigger] s[w], t.order_id@, t.price@);
                    lemma_first_terminal_in_range(s, t.order_id@, t.price@, w);
                }
                let q = t.quantity.val9();
                let prev = addend[k];
                proof {
                    lemma_absorbed_bound(s, k as int, n as int);
                }
                addend[k] = prev + q;
                proof {
                    assert forall|k2: int| 0 <= k2 < n implies addend@[k2] == absorbed_upto(
                        s,
                        k2,
                        i as int + 1,
                    ) by {
                        if k2 == k as int {
                            assert(addend@[k2] == prev + q);
                        } else {
                            assert(addend@[k2] == absorbed_upto(s, k2, i as int));
                        }
                    }
                }
            } else {
                proof {
                    assert(is_partial(s[i as int]));
                    assert(false);
                }
            }
        } else {
            proof {
                assert(!dropped(s, i as int));
                assert(forall|k: int|
                    0 <= k < n ==> absorbed_upto(s, k, i as int + 1) == absorbed_upto(
                        s,
                        k,
                        i as int,
                    ));
            }
        }
        i = i + 1;
    }

    // Build the merged batch in order.
    let mut src = activities;
    let mut out: Vec<Activity> = Vec::new();
    let mut i: usize = 0;
    proof {
        assert(src@ =~= s.skip(0));
    }
    while i < n
        invariant
            n == s.len() <= MAX_BATCH,
            acts_wf(s),
            targets@.len() == n,
            addend@.len() == n,
            i <= n,
            src@ == s.skip(i as int),
            forall|p: int|
                0 <= p < n ==> (dropped(s, p) <==> #[trigger] targets@[p] is Some),
            forall|k: int| 0 <= k < n ==> addend@[k] == absorbed(s, k),
            forall|k: int|
                0 <= k < n ==> -(n as int * 100000000000000000000000) <= #[trigger] addend@[k]
                    <= n as int * 100000000000000000000000,
            out@ + merge_spec_from(s, i as int) == merge_spec(s),
            forall|k: int|
                0 <= k < i ==> is_terminal(#[trigger] s[k]) ==> representable(
                    trade_of(s[k]).quantity@ + absorbed(s, k),
                ),
        decreases n - i,
    {
        let a = src.remove(0);
        proof {
            assert(a == s[i as int]);
            assert(src@ =~= s.skip(i as int + 1));
        }
        let tgt_some = targets[i].is_some();
        if tgt_some {
            // A partial fill whose terminal fill absorbs it: drop it here.
            proof {
                assert(dropped(s, i as int));
                assert(merge_spec_from(s, i as int) == merge_spec_from(s, i as int + 1));
                assert(!is_terminal(s[i as int]));
            }
        } else {
            match a {
                Activity::Trade(t) => {
                    if t.unfilled_quantity.is_zero() {
                        proof {
                            use_type_invariant(&t.quantity);
                            t.quantity.lemma_view_representable();
                            lemma_pow10_values();
                        }
                        let q = t.quantity.val9();
                        let add_v = addend[i];
                        match Decimal::from_val9(q + add_v) {
                            Some(newq) => {
                                let merged = TradeActivity { quantity: newq, ..t };
                                proof {
                                    use_type_invariant(&newq);
                                    lemma_dec_of(q as int + add_v as int);
                                    Decimal::lemma_value_unique(
                                        dec_of(q as int + add_v as int),
                                        newq,
                                    );
                                    assert(Activity::Trade(merged) =~= merged_at(s, i as int));
                                    assert(out@.push(merged_at(s, i as int))
                                        + merge_spec_from(s, i as int + 1) =~= out@ + (seq![
                                        merged_at(s, i as int),
                                    ] + merge_spec_from(s, i as int + 1)));
                                }
                                out.push(Activity::Trade(merged));
                            },
                            None => {
                                proof {
                                    assert(s[i as int] == Activity::Trade(t));
                                    assert(is_terminal(s[i as int]));
                                    assert(trade_of(s[i as int]) == t);
                                    assert(add_v as int == absorbed(s, i as int));
                                    assert(!representable(
                                        trade_of(s[i as int]).quantity@ + absorbed(s, i as int),
                                    ));
                                    assert(merge_overflows(s));
                                }
                                return Err(Error::AmountOutOfRange);
                            },
                        }
                    } else {
                        proof {
                            assert(!is_terminal(s[i as int]));
                            assert(merged_at(s, i as int) == s[i as int]);
                            assert(out@.push(s[i as int]) + merge_spec_from(s, i as int + 1)
                                =~= out@ + (seq![merged_at(s, i as int)] + merge_spec_from(
                                s,
                                i as int + 1,
                            )));
                        }
                        out.push(Activity::Trade(t));
                    }
                },
                Activity::NonTrade(nt) => {
                    proof {
                        assert(!is_terminal(s[i as int]));
                        assert(merged_at(s, i as int) == s[i as int]);
                        assert(out@.push(s[i as int]) + merge_spec_from(s, i as int + 1) =~= out@
                            + (seq![merged_at(s, i as int)] + merge_spec_from(s, i as int + 1)));
                    }
                    out.push(Activity::NonTrade(nt));
                },
            }
        }
        i = i + 1;
    }
    proof {
        assert(merge_spec_from(s, n as int) =~= Seq::<Activity>::empty());
        assert(out@ =~= merge_spec(s));
        // No terminal fill overflowed, so merging cannot have.
        assert(!merge_overflows(s));
    }
    Ok(out)
}

/// How many records among the first `i` the merge keeps.
pub open spec fn kept_before(s: Seq<Activity>, i: int) -> int
    decreases i,
{
    if i <= 0 {
        0
    } else {
        kept_before(s, i - 1) + if dropped(s, i - 1) {
            0int
        } else {
            1int
        }
    }
}

/// The number of records `merge_spec_from` emits from `i` on.
proof fn lemma_merge_len(s: Seq<Activity>, i: int)
    requires
        0 <= i <= s.len(),
    ensures
        merge_spec_from(s, i).len() == kept_before(s, s.len() as int) - kept_before(s, i),
        kept_before(s, i) <= kept_before(s, s.len() as int),
    decreases s.len() - i,
{
    lemma_kept_before_mono(s, i, s.len() as int);
    if i < s.len() {
        lemma_merge_len(s, i + 1);
        lemma_kept_step(s, i);
    }
}

/// `kept_before` grows by zero or one per record.
proof fn lemma_kept_step(s: Seq<Activity>, i: int)
    requires
        0 <= i,
    ensures
        kept_before(s, i + 1) == kept_before(s, i) + if dropped(s, i) {
            0int
        } else {
            1int
        },
{
}

/// `kept_before` is monotone.
pub proof fn lemma_kept_before_mono(s: Seq<Activity>, i: int, j: int)
    requires
        0 <= i <= j,
    ensures
        kept_before(s, i) <= kept_before(s, j),
        (i < j && !dropped(s, i)) ==> kept_before(s, i) < kept_before(s, j),
    decreases j - i,
{
    if i < j {
        lemma_kept_before_mono(s, i + 1, j);
        lemma_kept_step(s, i);
    }
}

/// Where a kept record lands: merging leaves it, transformed only as
/// `merged_at` says, at the position counted by `kept_before`.
///
/// Unrelated activities are never merged or reordered: a record that is not
/// an absorbed partial fill stays, with its position in the output given by
/// the order-preserving map `kept_before` (monotone by
/// `lemma_kept_before_mono`), and unless it is a terminal fill it is
/// unchanged.
pub proof fn lemma_merge_unrelated(s: Seq<Activity>, i: int)
    requires
        0 <= i < s.len(),
        !dropped(s, i),
    ensures
        0 <= kept_before(s, i) < merge_spec(s).len(),
        merge_spec(s)[kept_before(s, i)] == merged_at(s, i),
        !is_terminal(s[i]) ==> merge_spec(s)[kept_before(s, i)] == s[i],
{
    lemma_merge_index(s, 0, i);
    lemma_merge_len(s, 0);
    lemma_merge_len(s, i);
    lemma_kept_step(s, i);
    lemma_merge_len(s, i + 1);
}

/// The kept record `i` appears in `merge_spec_from(s, j)` at the offset
/// counting the kept records between `j` and `i`.
proof fn lemma_merge_index(s: Seq<Activity>, j: int, i: int)
    requires
        0 <= j <= i < s.len(),
        !dropped(s, i),
    ensures
        0 <= kept_before(s, i) - kept_before(s, j) < merge_spec_from(s, j).len(),
        merge_spec_from(s, j)[kept_before(s, i) - kept_before(s, j)] == merged_at(s, i),
    decreases i - j,
{
    lemma_kept_before_mono(s, j, i);
    lemma_merge_len(s, j);
    if j < i {
        lemma_merge_index(s, j + 1, i);
        lemma_kept_step(s, j);
        if !dropped(s, j) {
            assert(merge_spec_from(s, j) == seq![merged_at(s, j)] + merge_spec_from(s, j + 1));
        }
    } else {
        if !dropped(s, j) {
            assert(merge_spec_from(s, j)[0] == merged_at(s, j));
        }
    }
}

/// Every record of the merged batch is `merged_at` of some kept record.
proof fn lemma_merge_surjective(s: Seq<Activity>, j: int, p: int)
    requires
        0 <= j <= s.len(),
        0 <= p < merge_spec_from(s, j).len(),
    ensures
        exists|i: int|
            j <= i < s.len() && !dropped(s, i) && merge_spec_from(s, j)[p] == #[trigger] merged_at(
                s,
                i,
            ),
    decreases s.len() - j,
{
    if j < s.len() {
        if dropped(s, j) {
            lemma_merge_surjective(s, j + 1, p);
        } else {
            if p == 0 {
                assert(merge_spec_from(s, j)[0] == merged_at(s, j));
            } else {
                lemma_merge_surjective(s, j + 1, p - 1);
                let i = choose|i: int|
                    j + 1 <= i < s.len() && !dropped(s, i) && merge_spec_from(s, j + 1)[p - 1]
                        == #[trigger] merged_at(s, i);
                assert(merge_spec_from(s, j)[p] == merged_at(s, i));
            }
        }
    }
}

/// The total quantity (in billionths) of the first `n` records of an
/// all-trade batch.
pub open spec fn quantity_sum(s: Seq<Activity>, n: int) -> int
    decreases n,
{
    if n <= 0 {
        0
    } else {
        quantity_sum(s, n - 1) + trade_of(s[n - 1]).quantity@
    }
}

/// `kept_before` stands still over a stretch of dropped records.
proof fn lemma_kept_before_dropped(s: Seq<Activity>, a: int, b: int)
    requires
        0 <= a <= b,
        forall|j: int| a <= j < b ==> dropped(s, j),
    ensures
        kept_before(s, b) == kept_before(s, a),
    decreases b - a,
{
    if a < b {
        lemma_kept_before_dropped(s, a, b - 1);
        lemma_kept_step(s, b - 1);
    }
}

/// With one terminal fill and all other records its order's partials, the
/// terminal absorbs every quantity but its own.
proof fn lemma_absorbed_single(s: Seq<Activity>, k: int, n: int)
    requires
        0 <= k < s.len(),
        n <= s.len(),
        is_terminal(s[k]),
        forall|i: int| 0 <= i < s.len() && i != k ==> is_partial(#[trigger] s[i]),
        forall|i: int|
            0 <= i < s.len() ==> (#[trigger] s[i]) is Trade && trade_of(s[i]).order_id@ == trade_of(
                s[k],
            ).order_id@ && trade_of(s[i]).price@ == trade_of(s[k]).price@,
    ensures
        absorbed_upto(s, k, n) == quantity_sum(s, n) - if k < n {
            trade_of(s[k]).quantity@
        } else {
            0int
        },
    decreases n,
{
    if n > 0 {
        lemma_absorbed_single(s, k, n - 1);
        let i = n - 1;
        if i == k {
            assert(!is_partial(s[i]));
            assert(!dropped(s, i));
        } else {
            assert(is_partial(s[i]));
            assert(is_terminal_for(s[k], trade_of(s[i]).order_id@, trade_of(s[i]).price@));
            assert(has_terminal(s, trade_of(s[i]).order_id@, trade_of(s[i]).price@));
            assert forall|j: int| 0 <= j < k implies !is_terminal_for(
                #[trigger] s[j],
                trade_of(s[i]).order_id@,
                trade_of(s[i]).price@,
            ) by {
                assert(is_partial(s[j]));
            }
            lemma_first_terminal_at(s, trade_of(s[i]).order_id@, trade_of(s[i]).price@, 0, k);
        }
    }
}

/// Merging a batch of partial fills that share one order and price with
/// exactly one terminal fill yields that terminal record alone, its
/// quantity the sum of every record's quantity, its other fields untouched.
pub proof fn lemma_merge_single_order(s: Seq<Activity>, k: int)
    requires
        0 <= k < s.len(),
        is_terminal(s[k]),
        forall|i: int| 0 <= i < s.len() && i != k ==> is_partial(#[trigger] s[i]),
        forall|i: int|
            0 <= i < s.len() ==> (#[trigger] s[i]) is Trade && trade_of(s[i]).order_id@ == trade_of(
                s[k],
            ).order_id@ && trade_of(s[i]).price@ == trade_of(s[k]).price@,
    ensures
        merge_spec(s) == seq![
            Activity::Trade(
                TradeActivity {
                    quantity: dec_of(quantity_sum(s, s.len() as int)),
                    ..trade_of(s[k])
                },
            ),
        ],
        representable(quantity_sum(s, s.len() as int)) ==> trade_of(
            merge_spec(s)[0],
        ).quantity@ == quantity_sum(s, s.len() as int),
        representable(quantity_sum(s, s.len() as int)) ==> !merge_overflows(s),
{
    let n = s.len() as int;
    let total = quantity_sum(s, n);
    assert forall|i: int| 0 <= i < n && i != k implies dropped(s, i) by {
        assert(is_terminal_for(s[k], trade_of(s[i]).order_id@, trade_of(s[i]).price@));
        assert(has_terminal(s, trade_of(s[i]).order_id@, trade_of(s[i]).price@));
    }
    assert(!dropped(s, k));
    lemma_merge_unrelated(s, k);
    lemma_kept_before_dropped(s, 0, k);
    lemma_kept_step(s, k);
    lemma_kept_before_dropped(s, k + 1, n);
    lemma_merge_len(s, 0);
    assert(kept_before(s, k) == 0);
    assert(merge_spec(s).len() == 1);
    lemma_absorbed_single(s, k, n);
    assert(trade_of(s[k]).quantity@ + absorbed(s, k) == total);
    assert(merge_spec(s) =~= seq![
        Activity::Trade(TradeActivity { quantity: dec_of(total), ..trade_of(s[k]) }),
    ]);
    if representable(total) {
        lemma_dec_of(total);
        assert forall|j: int|
            0 <= j < n && is_terminal(#[trigger] s[j]) implies representable(
            trade_of(s[j]).quantity@ + absorbed(s, j),
        ) by {
            if j != k {
                assert(is_partial(s[j]));
                assert(false);
            }
        }
    }
}

/// With nothing dropped, nothing is absorbed.
proof fn lemma_no_drops_absorbed(r: Seq<Activity>, k: int, n: int)
    requires
        0 <= n <= r.len(),
        forall|i: int| 0 <= i < r.len() ==> !dropped(r, i),
    ensures
        absorbed_upto(r, k, n) == 0,
    decreases n,
{
    if n > 0 {
        lemma_no_drops_absorbed(r, k, n - 1);
    }
}

/// Merging a batch that holds no absorbable partial fill changes nothing.
proof fn lemma_merge_from_identity(r: Seq<Activity>, i: int)
    requires
        0 <= i <= r.len(),
        forall|p: int| 0 <= p < r.len() ==> !dropped(r, p),
        forall|p: int|
            0 <= p < r.len() && is_terminal(#[trigger] r[p]) ==> trade_of(r[p]).quantity.inv(),
    ensures
        merge_spec_from(r, i) == r.skip(i),
    decreases r.len() - i,
{
    if i < r.len() {
        lemma_merge_from_identity(r, i + 1);
        if is_terminal(r[i]) {
            lemma_no_drops_absorbed(r, i, r.len() as int);
            crate::decimal::lemma_dec_of_self(trade_of(r[i]).quantity);
            assert(TradeActivity {
                quantity: dec_of(trade_of(r[i]).quantity@ + 0),
                ..trade_of(r[i])
            } =~= trade_of(r[i]));
            assert(merged_at(r, i) == r[i]);
        }
        assert(seq![r[i]] + r.skip(i + 1) =~= r.skip(i));
    } else {
        assert(r.skip(i) =~= Seq::<Activity>::empty());
    }
}

/// Merging is idempotent: merging an already-merged batch changes nothing.
pub proof fn lemma_merge_idempotent(s: Seq<Activity>)
    requires
        acts_wf(s),
        !merge_overflows(s),
    ensures
        merge_spec(merge_spec(s)) == merge_spec(s),
{
    let r = merge_spec(s);
    assert forall|p: int| #![trigger r[p]]
        0 <= p < r.len() implies !dropped(r, p) && (is_terminal(r[p]) ==> trade_of(
        r[p],
    ).quantity.inv()) by {
        lemma_merge_surjective(s, 0, p);
        let i = choose|i: int|
            0 <= i < s.len() && !dropped(s, i) && r[p] == #[trigger] merged_at(s, i);
        if is_terminal(s[i]) {
            assert(representable(trade_of(s[i]).quantity@ + absorbed(s, i)));
            lemma_dec_of(trade_of(s[i]).quantity@ + absorbed(s, i));
            assert(is_terminal(r[p]));
            assert(!is_partial(r[p]));
        } else {
            assert(r[p] == s[i]);
            if is_partial(r[p]) {
                assert(!has_terminal(s, trade_of(s[i]).order_id@, trade_of(s[i]).price@));
                let oid = trade_of(r[p]).order_id@;
                let price = trade_of(r[p]).price@;
                if has_terminal(r, oid, price) {
                    let q = choose|q: int|
                        0 <= q < r.len() && is_terminal_for(#[trigger] r[q], oid, price);
                    lemma_merge_surjective(s, 0, q);
                    let i2 = choose|i2: int|
                        0 <= i2 < s.len() && !dropped(s, i2) && r[q] == #[trigger] merged_at(
                            s,
                            i2,
                        );
                    if is_terminal(s[i2]) {
                        assert(is_terminal_for(s[i2], oid, price));
                    } else {
                        assert(r[q] == s[i2]);
                        assert(is_terminal_for(s[i2], oid, price));
                    }
                    assert(has_terminal(s, oid, price));
                    assert(false);
                }
            }
        }
    }
    lemma_merge_from_identity(r, 0);
    assert(r.skip(0) =~= r);
}

/// The first terminal fill lies inside the batch when one exists at all.
proof fn lemma_first_terminal_in_range(s: Seq<Activity>, order_id: Seq<char>, price: int, w: int)
    requires
        0 <= w < s.len(),
        is_terminal_for(s[w], order_id, price),
    ensures
        0 <= first_terminal(s, order_id, price) < s.len(),
        is_terminal_for(s[first_terminal(s, order_id, price)], order_id, price),
{
    lemma_first_terminal_bounded(s, order_id, price, 0, w);
}

/// Below a known terminal fill, the scan stops at a terminal fill.
proof fn lemma_first_terminal_bounded(
    s: Seq<Activity>,
    order_id: Seq<char>,
    price: int,
    i: int,
    w: int,
)
    requires
        0 <= i <= w < s.len(),
        is_terminal_for(s[w], order_id, price),
    ensures
        i <= first_terminal_from(s, order_id, price, i) <= w,
        is_terminal_for(s[first_terminal_from(s, order_id, price, i)], order_id, price),
    decreases w - i,
{
    if !is_terminal_for(s[i], order_id, price) {
        lemma_first_terminal_bounded(s, order_id, price, i + 1, w);
    }
}

} // verus!
