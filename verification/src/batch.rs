//! Day batching.
//!
//! The feed is paginated by an opaque cursor and may split one calendar day
//! across pages. The caller keeps fetching pages into a buffer until the
//! buffer provably spans a day boundary — its first and last records fall
//! on different days — then splits off the first day: every record dated
//! like the oldest one is ready, the rest carry over to the next round
//! together with the unchanged cursor. An empty page means the stream is
//! done and the whole buffer is ready.

use vstd::prelude::*;
use vstd::string::StringExecFns;
use crate::activity::Activity;
use crate::date::Date;

verus! {

/// Whether the buffer holds records of more than one calendar day at its
/// ends: fetching may stop and the first day be split off.
pub open spec fn spans_days(s: Seq<Activity>) -> bool {
    s.len() > 0 && s[0].spec_date() != s[s.len() - 1].spec_date()
}

/// The records among the first `n` dated `d`, in order.
pub open spec fn same_day_upto(s: Seq<Activity>, d: Date, n: int) -> Seq<Activity>
    decreases n,
{
    if n <= 0 {
        Seq::empty()
    } else {
        same_day_upto(s, d, n - 1) + if s[n - 1].spec_date() == d {
            seq![s[n - 1]]
        } else {
            Seq::empty()
        }
    }
}

/// The records among the first `n` not dated `d`, in order.
pub open spec fn other_day_upto(s: Seq<Activity>, d: Date, n: int) -> Seq<Activity>
    decreases n,
{
    if n <= 0 {
        Seq::empty()
    } else {
        other_day_upto(s, d, n - 1) + if s[n - 1].spec_date() == d {
            Seq::empty()
        } else {
            seq![s[n - 1]]
        }
    }
}

/// Splitting a buffer by its oldest record's day is clean: the ready set
/// holds exactly the records of that day, the overflow none of them, and
/// together they exhaust the buffer. A day whose records are all buffered
/// is never split across two ready sets, and no overflow record can sit in
/// the ready set.
pub proof fn lemma_day_split_clean(s: Seq<Activity>, d: Date, n: int)
    requires
        0 <= n <= s.len(),
    ensures
        forall|i: int|
            0 <= i < same_day_upto(s, d, n).len() ==> #[trigger] same_day_upto(
                s,
                d,
                n,
            )[i].spec_date() == d,
        forall|i: int|
            0 <= i < other_day_upto(s, d, n).len() ==> #[trigger] other_day_upto(
                s,
                d,
                n,
            )[i].spec_date() != d,
        same_day_upto(s, d, n).len() + other_day_upto(s, d, n).len() == n,
    decreases n,
{
    if n > 0 {
        lemma_day_split_clean(s, d, n - 1);
    }
}

/// Whether the buffer is ready to split: it spans a day boundary.
pub fn day_batch_ready(buffer: &Vec<Activity>) -> (r: bool)
    ensures
        r == spans_days(buffer@),
{
    if buffer.len() == 0 {
        return false;
    }
    let first = buffer[0].date();
    let last = buffer[buffer.len() - 1].date();
    first != last
}

/// Split the buffer into the records of its oldest day (ready) and the
/// rest (overflow), each in feed order.
pub fn split_first_day(buffer: Vec<Activity>) -> (r: (Vec<Activity>, Vec<Activity>))
    requires
        buffer@.len() > 0,
    ensures
        r.0@ == same_day_upto(buffer@, buffer@[0].spec_date(), buffer@.len() as int),
        r.1@ == other_day_upto(buffer@, buffer@[0].spec_date(), buffer@.len() as int),
{
    let ghost s = buffer@;
    let d = buffer[0].date();
    let n = buffer.len();
    let mut src = buffer;
    let mut ready: Vec<Activity> = Vec::new();
    let mut overflow: Vec<Activity> = Vec::new();
    let mut i: usize = 0;
    proof {
        assert(src@ =~= s.skip(0));
    }
    while i < n
        invariant
            i <= n,
            n == s.len(),
            d == s[0].spec_date(),
            src@ == s.skip(i as int),
            ready@ == same_day_upto(s, d, i as int),
            overflow@ == other_day_upto(s, d, i as int),
        decreases n - i,
    {
        let a = src.remove(0);
        proof {
            assert(a == s[i as int]);
            assert(src@ =~= s.skip(i as int + 1));
        }
        if a.date() == d {
            ready.push(a);
            proof {
                assert(ready@ =~= same_day_upto(s, d, i as int + 1));
            }
        } else {
            overflow.push(a);
            proof {
                assert(overflow@ =~= other_day_upto(s, d, i as int + 1));
            }
        }
        i = i + 1;
    }
    (ready, overflow)
}

/// Absorb one fetched page into the buffer. A non-empty page advances the
/// cursor: the new page token is the identifier of its last record. An
/// empty page returns no token, the end-of-stream signal.
pub fn absorb_page(buffer: &mut Vec<Activity>, page: Vec<Activity>) -> (r: Option<String>)
    ensures
        final(buffer)@ == old(buffer)@ + page@,
        r is Some <==> page@.len() > 0,
        r matches Some(t) ==> t == page@[page@.len() - 1].spec_id(),
{
    let token: Option<String> = if page.len() > 0 {
        Some(page[page.len() - 1].id().clone())
    } else {
        None
    };
    let mut page = page;
    buffer.append(&mut page);
    token
}

} // verus!