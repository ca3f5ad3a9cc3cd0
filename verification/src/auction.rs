//! The auction core: winner resolution under an ascending, second-price-like
//! rule, the closed-form spend horizon of a rate-based charge against a
//! finite budget, and the outer loop that re-resolves the auction as bids are
//! consumed, expire, or go broke.

use vstd::prelude::*;
use vstd::arithmetic::div_mod::{lemma_fundamental_div_mod, lemma_div_is_ordered};
use vstd::arithmetic::mul::lemma_mul_inequality;
use crate::quantity::{Second, Currency, Token};

verus! {

/// A claim on the resource: a rate ceiling, a remaining spend ceiling, a
/// validity deadline, and an opaque payload carried through to the output
/// events unchanged.
#[derive(Debug, Clone, Copy)]
pub struct Bid<T: Copy> {
    /// The most the bidder is willing to pay per unit time (a ceiling, not
    /// necessarily what is charged).
    pub bid: Currency,
    /// Remaining spend ceiling; only ever decreased by the engine.
    pub expense_limit: Token,
    /// The instant after which the bid is no longer eligible.
    pub expiry: Second,
    /// Opaque identity, used only to label output events.
    pub data: T,
}

/// The exact spend horizon: for a charge at `amount` per unit time against
/// budget `limit`, starting at `now` with deadline `expiry`, the time the
/// charge stops and the amount spent by then. Mirrors integer floor
/// division: a remainder of the budget too small to buy one time unit is
/// forfeited, never carried forward.
pub open spec fn find_end_spec(amount: int, limit: int, expiry: int, now: int) -> (int, int) {
    if amount == 0 {
        (expiry, 0)
    } else if limit / amount + now <= expiry {
        (limit / amount + now, (limit / amount) * amount)
    } else {
        (expiry, (expiry - now) * amount)
    }
}

/// Find the end point of a single charge, so a timer can be set: the time
/// the charge stops and the tokens spent by then. The budget is exhausted at
/// `now + limit / amount` or the deadline arrives, whichever is first.
///
/// The bounds stated here are the spend-horizon guarantee: the finish time
/// lies in `[now, expiry]`, the spend never exceeds the budget, no affordable
/// time is left unspent when the budget runs out first, and a charge that
/// runs to the deadline is priced exactly with no remainder.
pub fn find_end(amount: Currency, limit: Token, expiry: Second, now: Second) -> (r: (Second, Token))
    requires
        now.0 < expiry.0,
    ensures
        (r.0.0 as int, r.1.0 as int) == find_end_spec(
            amount.0 as int, limit.0 as int, expiry.0 as int, now.0 as int),
        now.0 <= r.0.0 <= expiry.0,
        r.1.0 <= limit.0,
        amount.0 * (r.0.0 - now.0) == r.1.0,
        r.0.0 < expiry.0 ==> limit.0 - r.1.0 < amount.0,
        r.0.0 == expiry.0 ==> r.1.0 == amount.0 * (expiry.0 - now.0),
        amount.0 == 0 ==> r.0.0 == expiry.0 && r.1.0 == 0,
        amount.0 > 0 && amount.0 <= limit.0 ==> now.0 < r.0.0 && 0 < r.1.0,
{
    if amount.0 == 0 {
        return (expiry, Token::from(0));
    }
    let q: Second = limit.div_currency(amount);
    proof {
        lemma_fundamental_div_mod(limit.0 as int, amount.0 as int);
        // q * amount <= limit, and limit - q * amount == limit % amount < amount
        lemma_mul_inequality(0, limit.0 as int / amount.0 as int, amount.0 as int);
        if amount.0 <= limit.0 {
            // a whole time unit is affordable, so the quotient is positive
            // and so is the exhaustion-first spend
            lemma_div_is_ordered(amount.0 as int, limit.0 as int, amount.0 as int);
            vstd::arithmetic::div_mod::lemma_div_by_self(amount.0 as int);
            vstd::arithmetic::mul::lemma_mul_strictly_positive(
                limit.0 as int / amount.0 as int, amount.0 as int);
        }
        vstd::arithmetic::mul::lemma_mul_strictly_positive(
            expiry.0 as int - now.0 as int, amount.0 as int);
    }
    match q.0.checked_add(now.0) {
        Some(broke) if broke <= expiry.0 => {
            // The budget exhausts first: the remainder of the budget cannot
            // buy another full time unit and is forfeited.
            let spent: Token = amount.mul_second(q);
            (Second(broke), spent)
        },
        _ => {
            // The deadline arrives first: the span is priced exactly.
            let span: Second = expiry.sub(now);
            proof {
                // expiry - now < limit / amount, so the exact charge fits
                // under the budget.
                lemma_mul_inequality(
                    expiry.0 as int - now.0 as int,
                    limit.0 as int / amount.0 as int,
                    amount.0 as int,
                );
            }
            let spent: Token = amount.mul_second(span);
            (expiry, spent)
        },
    }
}

/// A bid is valid at `now` when its rate and remaining budget are positive
/// and its deadline has not yet arrived.
pub open spec fn is_valid_bid<T: Copy>(b: Bid<T>, now: int) -> bool {
    b.bid.0 > 0 && b.expense_limit.0 > 0 && b.expiry.0 > now
}

/// Filter bids for valid ones: positive rate, positive remaining budget, and
/// a deadline still in the future. Other entry points expect to receive only
/// bids that have passed such a filter.
pub fn valid_bids<'a, T: Copy>(bids: &'a [Bid<T>], now: Second) -> (r: Vec<&'a Bid<T>>)
    ensures
        r@.map_values(|b: &Bid<T>| *b) == bids@.filter(|b: Bid<T>| is_valid_bid(b, now.0 as int)),
{
    let ghost pred = |b: Bid<T>| is_valid_bid(b, now.0 as int);
    let mut out: Vec<&'a Bid<T>> = Vec::new();
    let mut k: usize = 0;
    while k < bids.len()
        invariant
            k <= bids@.len(),
            pred == (|b: Bid<T>| is_valid_bid(b, now.0 as int)),
            out@.map_values(|b: &Bid<T>| *b) == bids@.take(k as int).filter(pred),
        decreases bids@.len() - k,
    {
        let ghost prev = out@;
        let b: &Bid<T> = &bids[k];
        proof {
            assert(*b == bids@[k as int]);
        }
        if b.bid.0 > 0 && b.expense_limit.0 > 0 && b.expiry.0 > now.0 {
            out.push(b);
        }
        proof {
            broadcast use Seq::lemma_filter_push;
            assert(bids@.take(k as int + 1) =~= bids@.take(k as int).push(bids@[k as int]));
            if pred(bids@[k as int]) {
                assert(out@ == prev.push(b));
                assert(out@.map_values(|b: &Bid<T>| *b) =~= prev.map_values(
                    |b: &Bid<T>| *b).push(*b));
                assert(out@.map_values(|b: &Bid<T>| *b) == bids@.take(k as int).filter(
                    pred).push(bids@[k as int]));
            }
        }
        k = k + 1;
    }
    proof {
        assert(bids@.take(bids@.len() as int) =~= bids@);
    }
    out
}

// ---------------------------------------------------------------------------
// Winner resolution
// ---------------------------------------------------------------------------

/// Each bid paired with its position in the input, so that a resolution
/// result can point back into the caller's collection.
pub open spec fn indexed<T: Copy>(bids: Seq<Bid<T>>) -> Seq<(int, Bid<T>)> {
    Seq::new(bids.len(), |m: int| (m, bids[m]))
}

/// The bids allowed to participate: those whose rate meets the floor.
pub open spec fn candidates<T: Copy>(bids: Seq<Bid<T>>, floor: int) -> Seq<(int, Bid<T>)> {
    indexed(bids).filter(|p: (int, Bid<T>)| p.1.bid.0 as int >= floor)
}

/// Stable insertion for a descending-by-rate order: `x`, which arrived later
/// than everything in `t`, is placed after every element whose rate is at
/// least its own. Equal-rate candidates therefore keep their input order.
pub open spec fn insert_desc<T: Copy>(t: Seq<(int, Bid<T>)>, x: (int, Bid<T>)) -> Seq<(int, Bid<T>)>
    decreases t.len(),
{
    if t.len() == 0 {
        seq![x]
    } else if (t[0].1.bid.0 as int) < x.1.bid.0 as int {
        seq![x] + t
    } else {
        seq![t[0]] + insert_desc(t.drop_first(), x)
    }
}

/// The candidates in descending order of rate, ties kept in input order.
pub open spec fn sort_desc<T: Copy>(s: Seq<(int, Bid<T>)>) -> Seq<(int, Bid<T>)>
    decreases s.len(),
{
    if s.len() == 0 {
        s
    } else {
        insert_desc(sort_desc(s.drop_last()), s.last())
    }
}

/// The ascending auction over the descending-sorted candidates `c`,
/// consumed from the end (lowest rate first). `w` currently holds the slot
/// at `price`; a later candidate takes over when it can afford `to_beat`,
/// the price that beats `w` by the increment, and then pays the lesser of
/// its own rate and `to_beat`. The horizon becomes the lesser of the new
/// winner's deadline and the dethroned runner-up's deadline: the decision
/// must be revisited no later than when either of them drops out.
pub open spec fn scan_chain<T: Copy>(
    c: Seq<(int, Bid<T>)>,
    inc: int,
    w: (int, Bid<T>),
    price: int,
    to_beat: int,
    horizon: int,
) -> (int, int, int)
    decreases c.len(),
{
    if c.len() == 0 {
        (w.0, price, horizon)
    } else {
        let x = c.last();
        if x.1.expense_limit.0 as int >= to_beat {
            scan_chain(
                c.drop_last(),
                inc,
                x,
                vstd::math::min(x.1.bid.0 as int, to_beat),
                x.1.bid.0 + inc,
                vstd::math::min(x.1.expiry.0 as int, w.1.expiry.0 as int),
            )
        } else {
            scan_chain(c.drop_last(), inc, w, price, to_beat, horizon)
        }
    }
}

/// Find, from the bottom of the descending order, the first candidate whose
/// remaining budget covers one time unit at the floor price; it opens the
/// ascending auction at the floor. `None` when no candidate can afford even
/// that: no eligible bid.
pub open spec fn find_start<T: Copy>(c: Seq<(int, Bid<T>)>, inc: int, floor: int) -> Option<
    (int, int, int),
>
    decreases c.len(),
{
    if c.len() == 0 {
        None
    } else {
        let x = c.last();
        if x.1.expense_limit.0 as int >= floor {
            Some(
                scan_chain(
                    c.drop_last(),
                    inc,
                    x,
                    vstd::math::min(x.1.bid.0 as int, floor),
                    x.1.bid.0 + inc,
                    x.1.expiry.0 as int,
                ),
            )
        } else {
            find_start(c.drop_last(), inc, floor)
        }
    }
}

/// The winner determination rule: the position of the winning bid in the
/// input, the rate it is charged, and the horizon until which the decision
/// stands, or `None` when no bid both meets the floor and can afford it.
pub open spec fn resolve_spec<T: Copy>(bids: Seq<Bid<T>>, inc: int, floor: int) -> Option<
    (int, int, int),
> {
    find_start(sort_desc(candidates(bids, floor)), inc, floor)
}

/// Every element of `c` is a position into `bids` paired with the bid that
/// sits there.
spec fn pairs_of<T: Copy>(c: Seq<(int, Bid<T>)>, bids: Seq<Bid<T>>) -> bool {
    forall|m: int|
        0 <= m < c.len() ==> 0 <= (#[trigger] c[m]).0 < bids.len() && c[m].1 == bids[c[m].0]
}

/// The view of the executable order vector as an indexed-pair sequence.
spec fn order_view<T: Copy>(order: Seq<usize>, bids: Seq<Bid<T>>) -> Seq<(int, Bid<T>)> {
    Seq::new(order.len(), |m: int| (order[m] as int, bids[order[m] as int]))
}

/// Inserting preserves the elements: the result is the old ones plus `x`.
proof fn lemma_insert_desc_elems<T: Copy>(t: Seq<(int, Bid<T>)>, x: (int, Bid<T>))
    ensures
        insert_desc(t, x).len() == t.len() + 1,
        forall|m: int|
            0 <= m < insert_desc(t, x).len() ==> (#[trigger] insert_desc(t, x)[m] == x
                || t.contains(insert_desc(t, x)[m])),
        insert_desc(t, x).contains(x),
        forall|e: (int, Bid<T>)| t.contains(e) ==> insert_desc(t, x).contains(e),
    decreases t.len(),
{
    if t.len() == 0 {
        assert(insert_desc(t, x)[0] == x);
    } else if (t[0].1.bid.0 as int) < x.1.bid.0 as int {
        assert forall|e: (int, Bid<T>)| t.contains(e) implies insert_desc(t, x).contains(e) by {
            let m = choose|m: int| 0 <= m < t.len() && t[m] == e;
            assert(insert_desc(t, x)[m + 1] == e);
        }
        assert(insert_desc(t, x)[0] == x);
    } else {
        lemma_insert_desc_elems(t.drop_first(), x);
        let r = insert_desc(t, x);
        assert(r == seq![t[0]] + insert_desc(t.drop_first(), x));
        assert forall|m: int| 0 <= m < r.len() implies (#[trigger] r[m] == x || t.contains(
            r[m],
        )) by {
            if m == 0 {
                assert(t[0] == r[m]);
                assert(t.contains(r[m]));
            } else {
                assert(r[m] == insert_desc(t.drop_first(), x)[m - 1]);
                if r[m] != x {
                    let n = choose|n: int|
                        0 <= n < t.drop_first().len() && t.drop_first()[n] == r[m];
                    assert(t[n + 1] == r[m]);
                }
            }
        }
        assert forall|e: (int, Bid<T>)| t.contains(e) implies r.contains(e) by {
            let m = choose|m: int| 0 <= m < t.len() && t[m] == e;
            if m == 0 {
                assert(r[0] == e);
            } else {
                assert(t.drop_first()[m - 1] == e);
                assert(t.drop_first().contains(e));
                assert(insert_desc(t.drop_first(), x).contains(e));
                let n = choose|n: int|
                    0 <= n < insert_desc(t.drop_first(), x).len() && insert_desc(
                        t.drop_first(),
                        x,
                    )[n] == e;
                assert(r[n + 1] == e);
            }
        }
        let n = choose|n: int|
            0 <= n < insert_desc(t.drop_first(), x).len() && insert_desc(t.drop_first(), x)[n]
                == x;
        assert(r[n + 1] == x);
    }
}

/// Sorting preserves the elements.
proof fn lemma_sort_desc_elems<T: Copy>(s: Seq<(int, Bid<T>)>)
    ensures
        sort_desc(s).len() == s.len(),
        forall|m: int|
            0 <= m < sort_desc(s).len() ==> s.contains(#[trigger] sort_desc(s)[m]),
        forall|e: (int, Bid<T>)| s.contains(e) ==> sort_desc(s).contains(e),
    decreases s.len(),
{
    if s.len() == 0 {
    } else {
        lemma_sort_desc_elems(s.drop_last());
        lemma_insert_desc_elems(sort_desc(s.drop_last()), s.last());
        let r = sort_desc(s);
        assert forall|m: int| 0 <= m < r.len() implies s.contains(#[trigger] r[m]) by {
            if r[m] == s.last() {
                assert(s[s.len() - 1] == r[m]);
            } else {
                assert(sort_desc(s.drop_last()).contains(r[m]));
                let n = choose|n: int|
                    0 <= n < s.drop_last().len() && s.drop_last()[n] == r[m];
                assert(s[n] == r[m]);
            }
        }
        assert forall|e: (int, Bid<T>)| s.contains(e) implies r.contains(e) by {
            let m = choose|m: int| 0 <= m < s.len() && s[m] == e;
            if m < s.len() - 1 {
                assert(s.drop_last()[m] == e);
                assert(s.drop_last().contains(e));
                assert(sort_desc(s.drop_last()).contains(e));
            } else {
                assert(e == s.last());
                assert(insert_desc(sort_desc(s.drop_last()), s.last()).contains(s.last()));
            }
        }
    }
}

/// Everything the filter keeps came from the sequence it was given.
proof fn lemma_filter_subset<A>(s: Seq<A>, p: spec_fn(A) -> bool)
    ensures
        forall|m: int| 0 <= m < s.filter(p).len() ==> s.contains(#[trigger] s.filter(p)[m]),
    decreases s.len(),
{
    reveal(Seq::filter);
    if s.len() != 0 {
        lemma_filter_subset(s.drop_last(), p);
        let out = s.filter(p);
        assert forall|m: int| 0 <= m < out.len() implies s.contains(#[trigger] out[m]) by {
            if p(s.last()) && m == out.len() - 1 {
                assert(out[m] == s.last());
                assert(s[s.len() - 1] == out[m]);
            } else {
                assert(out[m] == s.drop_last().filter(p)[m]);
                assert(s.drop_last().contains(out[m]));
                let n = choose|n: int|
                    0 <= n < s.drop_last().len() && s.drop_last()[n] == out[m];
                assert(s[n] == out[m]);
            }
        }
    }
}

/// Positional form of `insert_desc`: if the first `j` elements outrank `x`
/// and the one at `j` (if any) does not, the insertion lands exactly at `j`.
proof fn lemma_insert_desc_at<T: Copy>(t: Seq<(int, Bid<T>)>, x: (int, Bid<T>), j: int)
    requires
        0 <= j <= t.len(),
        forall|m: int| 0 <= m < j ==> (#[trigger] t[m]).1.bid.0 as int >= x.1.bid.0 as int,
        j < t.len() ==> (t[j].1.bid.0 as int) < x.1.bid.0 as int,
    ensures
        insert_desc(t, x) == t.insert(j, x),
    decreases j,
{
    if j == 0 {
        if t.len() == 0 {
            assert(insert_desc(t, x) =~= t.insert(0, x));
        } else {
            assert(insert_desc(t, x) =~= t.insert(0, x));
        }
    } else {
        assert(t[0].1.bid.0 as int >= x.1.bid.0 as int);
        lemma_insert_desc_at(t.drop_first(), x, j - 1);
        assert(insert_desc(t, x) == seq![t[0]] + t.drop_first().insert(j - 1, x));
        assert(seq![t[0]] + t.drop_first().insert(j - 1, x) =~= t.insert(j, x));
    }
}

/// The sorted candidate sequence is well-formed: every element points back
/// into `bids` at a bid that meets the floor.
proof fn lemma_sorted_candidates_wf<T: Copy>(bids: Seq<Bid<T>>, floor: int)
    ensures
        pairs_of(sort_desc(candidates(bids, floor)), bids),
        sort_desc(candidates(bids, floor)).len() == candidates(bids, floor).len(),
        forall|m: int|
            0 <= m < sort_desc(candidates(bids, floor)).len() ==> (#[trigger] sort_desc(
                candidates(bids, floor),
            )[m]).1.bid.0 as int >= floor,
{
    let pr = |p: (int, Bid<T>)| p.1.bid.0 as int >= floor;
    let c_sorted = sort_desc(candidates(bids, floor));
    lemma_sort_desc_elems(candidates(bids, floor));
    lemma_filter_subset(indexed(bids), pr);
    broadcast use Seq::lemma_filter_pred;
    assert(candidates(bids, floor) == indexed(bids).filter(pr));
    assert forall|m: int| 0 <= m < c_sorted.len() implies 0 <= (#[trigger] c_sorted[m]).0
        < bids.len() && c_sorted[m].1 == bids[c_sorted[m].0] && c_sorted[m].1.bid.0 as int
        >= floor by {
        assert(candidates(bids, floor).contains(c_sorted[m]));
        let n = choose|n: int|
            0 <= n < candidates(bids, floor).len() && candidates(bids, floor)[n] == c_sorted[m];
        assert(pr(indexed(bids).filter(pr)[n]));
        assert(indexed(bids).contains(indexed(bids).filter(pr)[n]));
        let q = choose|q: int|
            0 <= q < indexed(bids).len() && indexed(bids)[q] == candidates(bids, floor)[n];
        assert(indexed(bids)[q] == (q, bids[q]));
    }
}

/// `find_start` comes up empty exactly when no candidate can afford the
/// floor price for one time unit.
proof fn lemma_find_start_none<T: Copy>(c: Seq<(int, Bid<T>)>, inc: int, floor: int)
    ensures
        find_start(c, inc, floor) is None <==> forall|m: int|
            0 <= m < c.len() ==> ((#[trigger] c[m]).1.expense_limit.0 as int) < floor,
    decreases c.len(),
{
    if c.len() == 0 {
    } else {
        lemma_find_start_none(c.drop_last(), inc, floor);
        if (c.last().1.expense_limit.0 as int) < floor {
            assert forall|m: int| 0 <= m < c.drop_last().len() implies c.drop_last()[m]
                == c[m] by {}
        }
    }
}

/// Resolve the current winner among `bids`: the position of the winning
/// bid, the rate it is actually charged, and the horizon at which the
/// decision must be re-evaluated, exactly as `resolve_spec` determines them.
/// Equal-rate candidates are resolved deterministically, by input order:
/// the earlier bid outranks the later one.
/// Returns `None` exactly when no bid both meets the floor rate and can
/// afford one time unit at it.
pub fn winning_bid<T: Copy>(bids: &Vec<Bid<T>>, increment: Currency, min_bid: Currency) -> (r:
    Option<(usize, Currency, Second)>)
    ensures
        match r {
            None => {
                &&& resolve_spec(bids@, increment.0 as int, min_bid.0 as int) is None
                &&& forall|j: int|
                    0 <= j < bids@.len() ==> !((#[trigger] bids@[j]).bid.0 >= min_bid.0
                        && bids@[j].expense_limit.0 >= min_bid.0)
            },
            Some((i, price, horizon)) => {
                &&& resolve_spec(bids@, increment.0 as int, min_bid.0 as int) == Some(
                    (i as int, price.0 as int, horizon.0 as int),
                )
                &&& i < bids@.len()
                &&& bids@[i as int].bid.0 >= min_bid.0
                &&& min_bid.0 <= price.0 <= bids@[i as int].bid.0
                &&& price.0 <= bids@[i as int].expense_limit.0
                &&& horizon.0 <= bids@[i as int].expiry.0
                &&& exists|j: int|
                    0 <= j < bids@.len() && (#[trigger] bids@[j]).expiry.0 == horizon.0
            },
        },
{
    let ghost inc = increment.0 as int;
    let ghost floor = min_bid.0 as int;
    let ghost pr = |p: (int, Bid<T>)| p.1.bid.0 as int >= floor;

    // Stable insertion sort of the candidate positions, descending by rate:
    // each new candidate goes after every already-placed one whose rate is
    // at least its own, so equal rates keep their input order.
    let mut order: Vec<usize> = Vec::new();
    let mut k: usize = 0;
    while k < bids.len()
        invariant
            k <= bids@.len(),
            floor == min_bid.0 as int,
            forall|m: int| 0 <= m < order@.len() ==> (#[trigger] order@[m]) < bids@.len(),
            order_view(order@, bids@) == sort_desc(candidates(bids@.take(k as int), floor)),
        decreases bids@.len() - k,
    {
        let ghost x = (k as int, bids@[k as int]);
        if bids[k].bid.0 >= min_bid.0 {
            let x_bid: u64 = bids[k].bid.0;
            let mut j: usize = 0;
            while j < order.len() && bids[order[j]].bid.0 >= x_bid
                invariant
                    j <= order@.len(),
                    k < bids@.len(),
                    x_bid == bids@[k as int].bid.0,
                    forall|m: int| 0 <= m < order@.len() ==> (#[trigger] order@[m]) < bids@.len(),
                    forall|m: int|
                        0 <= m < j ==> bids@[(#[trigger] order@[m]) as int].bid.0 >= x_bid,
                decreases order@.len() - j,
            {
                j = j + 1;
            }
            let ghost prev_order = order@;
            let ghost prev_ov = order_view(order@, bids@);
            order.insert(j, k);
            proof {
                assert forall|m: int| 0 <= m < j implies (#[trigger] prev_ov[m]).1.bid.0 as int
                    >= x.1.bid.0 as int by {
                    assert(bids@[prev_order[m] as int].bid.0 >= x_bid);
                }
                lemma_insert_desc_at(prev_ov, x, j as int);
                prev_order.insert_ensures(j as int, k);
                prev_ov.insert_ensures(j as int, x);
                assert(order_view(order@, bids@) =~= prev_ov.insert(j as int, x));
                broadcast use Seq::lemma_filter_push;
                assert(indexed(bids@.take(k as int + 1)) =~= indexed(
                    bids@.take(k as int),
                ).push(x));
                assert(candidates(bids@.take(k as int + 1), floor) == candidates(
                    bids@.take(k as int),
                    floor,
                ).push(x));
                assert(candidates(bids@.take(k as int + 1), floor).drop_last() =~= candidates(
                    bids@.take(k as int),
                    floor,
                ));
                assert(sort_desc(candidates(bids@.take(k as int + 1), floor)) == insert_desc(
                    sort_desc(candidates(bids@.take(k as int), floor)),
                    x,
                ));
            }
        } else {
            proof {
                broadcast use Seq::lemma_filter_push;
                assert(indexed(bids@.take(k as int + 1)) =~= indexed(
                    bids@.take(k as int),
                ).push(x));
                assert(candidates(bids@.take(k as int + 1), floor) == candidates(
                    bids@.take(k as int),
                    floor,
                ));
            }
        }
        k = k + 1;
    }
    let ghost c_sorted = sort_desc(candidates(bids@, floor));
    proof {
        assert(bids@.take(bids@.len() as int) =~= bids@);
        lemma_sorted_candidates_wf(bids@, floor);
        assert(pairs_of(c_sorted, bids@));
        assert(c_sorted.len() == order@.len());
        assert(c_sorted.take(order@.len() as int) =~= c_sorted);
    }

    // Scan upward from the lowest rate for the first candidate that can
    // afford one time unit at the floor price; it opens the auction.
    let mut i: usize = order.len();
    while i > 0 && bids[order[i - 1]].expense_limit.0 < min_bid.0
        invariant
            i <= order@.len(),
            floor == min_bid.0 as int,
            inc == increment.0 as int,
            forall|m: int| 0 <= m < order@.len() ==> (#[trigger] order@[m]) < bids@.len(),
            order_view(order@, bids@) == c_sorted,
            c_sorted == sort_desc(candidates(bids@, floor)),
            pairs_of(c_sorted, bids@),
            find_start(c_sorted.take(i as int), inc, floor) == find_start(c_sorted, inc, floor),
        decreases i,
    {
        proof {
            assert(c_sorted.take(i as int).last() == c_sorted[i as int - 1]);
            assert(c_sorted[i as int - 1].1 == bids@[order@[i - 1] as int]);
            assert(c_sorted.take(i as int).drop_last() =~= c_sorted.take(i as int - 1));
        }
        i = i - 1;
    }
    if i == 0 {
        proof {
            assert(c_sorted.take(0) =~= Seq::<(int, Bid<T>)>::empty());
            assert(resolve_spec(bids@, inc, floor) is None);
            lemma_find_start_none(c_sorted, inc, floor);
            assert forall|j: int| 0 <= j < bids@.len() implies !((#[trigger] bids@[j]).bid.0
                >= min_bid.0 && bids@[j].expense_limit.0 >= min_bid.0) by {
                if bids@[j].bid.0 >= min_bid.0 && bids@[j].expense_limit.0 >= min_bid.0 {
                    let p = (j, bids@[j]);
                    assert(indexed(bids@)[j] == p);
                    assert(indexed(bids@).contains(p));
                    assert(candidates(bids@, floor) == indexed(bids@).filter(pr));
                    indexed(bids@).lemma_filter_contains_rev(pr, p);
                    lemma_sort_desc_elems(candidates(bids@, floor));
                    assert(c_sorted.contains(p));
                    let m = choose|m: int| 0 <= m < c_sorted.len() && c_sorted[m] == p;
                    assert((c_sorted[m].1.expense_limit.0 as int) < floor);
                }
            }
        }
        return None;
    }

    // The ascending auction: successively higher-rate candidates take over
    // whenever they can afford to beat the sitting winner by the increment.
    let mut w_idx: usize = order[i - 1];
    let mut price: u64 = if bids[w_idx].bid.0 <= min_bid.0 {
        bids[w_idx].bid.0
    } else {
        min_bid.0
    };
    let mut to_beat: Option<u64> = bids[w_idx].bid.0.checked_add(increment.0);
    let mut horizon: u64 = bids[w_idx].expiry.0;
    let ghost mut tb: int = bids@[w_idx as int].bid.0 + inc;
    let ghost res = find_start(c_sorted, inc, floor)->Some_0;
    proof {
        assert(c_sorted.take(i as int).last() == c_sorted[i as int - 1]);
        assert(c_sorted.take(i as int).drop_last() =~= c_sorted.take(i as int - 1));
        assert(find_start(c_sorted, inc, floor) == Some(
            scan_chain(
                c_sorted.take(i as int - 1),
                inc,
                c_sorted[i as int - 1],
                vstd::math::min(c_sorted[i as int - 1].1.bid.0 as int, floor),
                c_sorted[i as int - 1].1.bid.0 + inc,
                c_sorted[i as int - 1].1.expiry.0 as int,
            ),
        ));
    }
    let mut j: usize = i - 1;
    while j > 0
        invariant
            j <= c_sorted.len(),
            floor == min_bid.0 as int,
            inc == increment.0 as int,
            forall|m: int| 0 <= m < order@.len() ==> (#[trigger] order@[m]) < bids@.len(),
            order_view(order@, bids@) == c_sorted,
            c_sorted == sort_desc(candidates(bids@, floor)),
            pairs_of(c_sorted, bids@),
            forall|m: int|
                0 <= m < c_sorted.len() ==> (#[trigger] c_sorted[m]).1.bid.0 as int >= floor,
            w_idx < bids@.len(),
            bids@[w_idx as int].bid.0 >= min_bid.0,
            min_bid.0 <= price <= bids@[w_idx as int].bid.0,
            price <= bids@[w_idx as int].expense_limit.0,
            horizon <= bids@[w_idx as int].expiry.0,
            exists|jj: int|
                0 <= jj < bids@.len() && (#[trigger] bids@[jj]).expiry.0 == horizon,
            floor <= tb,
            (match to_beat {
                Some(t) => t == tb,
                None => tb > u64::MAX,
            }),
            find_start(c_sorted, inc, floor) == Some(res),
            scan_chain(
                c_sorted.take(j as int),
                inc,
                (w_idx as int, bids@[w_idx as int]),
                price as int,
                tb,
                horizon as int,
            ) == res,
        decreases j,
    {
        let xi: usize = order[j - 1];
        proof {
            assert(c_sorted.take(j as int).last() == c_sorted[j as int - 1]);
            assert(c_sorted[j as int - 1].1 == bids@[xi as int]);
            assert(c_sorted.take(j as int).drop_last() =~= c_sorted.take(j as int - 1));
        }
        match to_beat {
            Some(t) if bids[xi].expense_limit.0 >= t => {
                let new_price: u64 = if bids[xi].bid.0 <= t {
                    bids[xi].bid.0
                } else {
                    t
                };
                let e_new: u64 = bids[xi].expiry.0;
                let e_old: u64 = bids[w_idx].expiry.0;
                horizon = if e_new <= e_old {
                    e_new
                } else {
                    e_old
                };
                price = new_price;
                to_beat = bids[xi].bid.0.checked_add(increment.0);
                proof {
                    tb = bids@[xi as int].bid.0 + inc;
                }
                w_idx = xi;
            },
            _ => {},
        }
        j = j - 1;
    }
    proof {
        assert(c_sorted.take(0) =~= Seq::<(int, Bid<T>)>::empty());
        assert(res == (w_idx as int, price as int, horizon as int));
    }
    Some((w_idx, Currency(price), Second(horizon)))
}

// ---------------------------------------------------------------------------
// The auction loop
// ---------------------------------------------------------------------------

/// The smallest budget that keeps a bid in the running: one time unit at
/// the floor rate, and never less than one token.
pub open spec fn min_tokens_spec(floor: int) -> int {
    vstd::math::max(floor, 1)
}

/// A bid that may still take part at `now`: not yet expired, meets the
/// floor rate, and holds at least the minimum budget.
pub open spec fn viable<T: Copy>(b: Bid<T>, floor: int, now: int) -> bool {
    b.expiry.0 as int > now && b.bid.0 as int >= floor && b.expense_limit.0 as int
        >= min_tokens_spec(floor)
}

pub open spec fn all_viable<T: Copy>(bids: Seq<Bid<T>>, floor: int, now: int) -> bool {
    forall|j: int| 0 <= j < bids.len() ==> viable(#[trigger] bids[j], floor, now)
}

/// The latest deadline among the bids; zero when none remain.
pub open spec fn max_expiry<T: Copy>(bids: Seq<Bid<T>>) -> int
    decreases bids.len(),
{
    if bids.len() == 0 {
        0
    } else {
        vstd::math::max(bids.last().expiry.0 as int, max_expiry(bids.drop_last()))
    }
}

/// Termination measure of the loop: the time left until every bid has
/// expired. Every round strictly advances the clock, so it shrinks.
pub open spec fn trace_measure<T: Copy>(bids: Seq<Bid<T>>, now: int) -> int {
    vstd::math::max(max_expiry(bids) - now, 0)
}

/// One round's survivors: the winner's budget is cut by what it spent, and
/// every bid that has expired or fallen under the minimum budget is pruned.
pub open spec fn next_round<T: Copy>(
    bids: Seq<Bid<T>>,
    i: int,
    spent: int,
    floor: int,
    finish: int,
) -> Seq<Bid<T>> {
    let charged = (Bid {
        bid: bids[i].bid,
        expense_limit: Token((bids[i].expense_limit.0 - spent) as u64),
        expiry: bids[i].expiry,
        data: bids[i].data,
    });
    bids.update(i, charged).filter(
        |b: Bid<T>| b.expiry.0 as int > finish && b.expense_limit.0 as int >= min_tokens_spec(
            floor,
        ),
    )
}

/// No deadline exceeds `max_expiry`.
proof fn lemma_max_expiry_ub<T: Copy>(bids: Seq<Bid<T>>)
    ensures
        forall|m: int|
            0 <= m < bids.len() ==> (#[trigger] bids[m]).expiry.0 as int <= max_expiry(bids),
    decreases bids.len(),
{
    if bids.len() > 0 {
        lemma_max_expiry_ub(bids.drop_last());
        assert forall|m: int| 0 <= m < bids.len() implies (#[trigger] bids[m]).expiry.0 as int
            <= max_expiry(bids) by {
            if m < bids.len() - 1 {
                assert(bids.drop_last()[m] == bids[m]);
            }
        }
    }
}

/// With at least one bid, `max_expiry` is one of the deadlines.
proof fn lemma_max_expiry_realized<T: Copy>(bids: Seq<Bid<T>>)
    requires
        bids.len() > 0,
    ensures
        exists|m: int|
            0 <= m < bids.len() && (#[trigger] bids[m]).expiry.0 as int == max_expiry(bids),
    decreases bids.len(),
{
    if bids.len() == 1 {
        assert(max_expiry(bids.drop_last()) == 0);
        assert(bids[0].expiry.0 as int == max_expiry(bids));
    } else if bids.last().expiry.0 as int >= max_expiry(bids.drop_last()) {
        assert(bids[bids.len() - 1].expiry.0 as int == max_expiry(bids));
    } else {
        lemma_max_expiry_realized(bids.drop_last());
        let m = choose|m: int|
            0 <= m < bids.drop_last().len() && (#[trigger] bids.drop_last()[m]).expiry.0 as int
                == max_expiry(bids.drop_last());
        assert(bids[m].expiry.0 as int == max_expiry(bids));
    }
}

/// Properties of the ascending scan that every caller of the resolution
/// relies on: the winner is a real candidate, its price never exceeds its
/// rate ceiling or its remaining budget, and the horizon is one of the
/// participants' deadlines, no later than the winner's own.
proof fn lemma_scan_chain_props<T: Copy>(
    c: Seq<(int, Bid<T>)>,
    bids: Seq<Bid<T>>,
    inc: int,
    floor: int,
    w: (int, Bid<T>),
    price: int,
    to_beat: int,
    horizon: int,
)
    requires
        inc >= 0,
        pairs_of(c, bids),
        forall|m: int| 0 <= m < c.len() ==> (#[trigger] c[m]).1.bid.0 as int >= floor,
        0 <= w.0 < bids.len(),
        w.1 == bids[w.0],
        w.1.bid.0 as int >= floor,
        floor <= price <= w.1.bid.0 as int,
        price <= w.1.expense_limit.0 as int,
        horizon <= w.1.expiry.0 as int,
        exists|j: int| 0 <= j < bids.len() && (#[trigger] bids[j]).expiry.0 as int == horizon,
        floor <= to_beat,
    ensures
        ({
            let res = scan_chain(c, inc, w, price, to_beat, horizon);
            &&& 0 <= res.0 < bids.len()
            &&& bids[res.0].bid.0 as int >= floor
            &&& floor <= res.1 <= bids[res.0].bid.0 as int
            &&& res.1 <= bids[res.0].expense_limit.0 as int
            &&& res.2 <= bids[res.0].expiry.0 as int
            &&& exists|j: int|
                0 <= j < bids.len() && (#[trigger] bids[j]).expiry.0 as int == res.2
        }),
    decreases c.len(),
{
    if c.len() != 0 {
        let x = c.last();
        assert(c[c.len() - 1] == x);
        assert forall|m: int| 0 <= m < c.drop_last().len() implies (#[trigger] c.drop_last()[m])
            == c[m] by {}
        if x.1.expense_limit.0 as int >= to_beat {
            let price2 = vstd::math::min(x.1.bid.0 as int, to_beat);
            let horizon2 = vstd::math::min(x.1.expiry.0 as int, w.1.expiry.0 as int);
            assert(bids[x.0].expiry.0 as int == x.1.expiry.0 as int);
            if horizon2 == x.1.expiry.0 as int {
                assert(bids[x.0].expiry.0 as int == horizon2);
            } else {
                assert(bids[w.0].expiry.0 as int == horizon2);
            }
            lemma_scan_chain_props(
                c.drop_last(),
                bids,
                inc,
                floor,
                x,
                price2,
                x.1.bid.0 + inc,
                horizon2,
            );
        } else {
            lemma_scan_chain_props(c.drop_last(), bids, inc, floor, w, price, to_beat, horizon);
        }
    }
}

/// The scan's properties carried through the search for its starting point.
proof fn lemma_find_start_props<T: Copy>(c: Seq<(int, Bid<T>)>, bids: Seq<Bid<T>>, inc: int, floor: int)
    requires
        inc >= 0,
        floor >= 0,
        pairs_of(c, bids),
        forall|m: int| 0 <= m < c.len() ==> (#[trigger] c[m]).1.bid.0 as int >= floor,
        find_start(c, inc, floor) is Some,
    ensures
        ({
            let res = find_start(c, inc, floor)->Some_0;
            &&& 0 <= res.0 < bids.len()
            &&& bids[res.0].bid.0 as int >= floor
            &&& floor <= res.1 <= bids[res.0].bid.0 as int
            &&& res.1 <= bids[res.0].expense_limit.0 as int
            &&& res.2 <= bids[res.0].expiry.0 as int
            &&& exists|j: int|
                0 <= j < bids.len() && (#[trigger] bids[j]).expiry.0 as int == res.2
        }),
    decreases c.len(),
{
    let x = c.last();
    assert(c[c.len() - 1] == x);
    assert forall|m: int| 0 <= m < c.drop_last().len() implies (#[trigger] c.drop_last()[m])
        == c[m] by {}
    if x.1.expense_limit.0 as int >= floor {
        assert(bids[x.0].expiry.0 as int == x.1.expiry.0 as int);
        lemma_scan_chain_props(
            c.drop_last(),
            bids,
            inc,
            floor,
            x,
            vstd::math::min(x.1.bid.0 as int, floor),
            x.1.bid.0 + inc,
            x.1.expiry.0 as int,
        );
    } else {
        lemma_find_start_props(c.drop_last(), bids, inc, floor);
    }
}

/// The resolution's guarantees, at the level of the bid sequence itself.
proof fn lemma_resolve_props<T: Copy>(bids: Seq<Bid<T>>, inc: int, floor: int)
    requires
        inc >= 0,
        floor >= 0,
        resolve_spec(bids, inc, floor) is Some,
    ensures
        ({
            let res = resolve_spec(bids, inc, floor)->Some_0;
            &&& 0 <= res.0 < bids.len()
            &&& bids[res.0].bid.0 as int >= floor
            &&& floor <= res.1 <= bids[res.0].bid.0 as int
            &&& res.1 <= bids[res.0].expense_limit.0 as int
            &&& res.2 <= bids[res.0].expiry.0 as int
            &&& exists|j: int|
                0 <= j < bids.len() && (#[trigger] bids[j]).expiry.0 as int == res.2
        }),
{
    lemma_sorted_candidates_wf(bids, floor);
    lemma_find_start_props(sort_desc(candidates(bids, floor)), bids, inc, floor);
}

/// One round of the loop, seen abstractly: the clock strictly advances, the
/// spend stays within the winner's budget, the survivors are all viable at
/// the new clock, and the termination measure strictly shrinks.
proof fn lemma_step_decreases<T: Copy>(bids: Seq<Bid<T>>, inc: int, floor: int, now: int)
    requires
        inc >= 0,
        floor >= 0,
        now >= 0,
        bids.len() > 0,
        all_viable(bids, floor, now),
        resolve_spec(bids, inc, floor) is Some,
    ensures
        ({
            let res = resolve_spec(bids, inc, floor)->Some_0;
            let fe = find_end_spec(res.1, bids[res.0].expense_limit.0 as int, res.2, now);
            let next = next_round(bids, res.0, fe.1, floor, fe.0);
            &&& now < fe.0 <= res.2
            &&& 0 <= fe.1 <= bids[res.0].expense_limit.0 as int
            &&& all_viable(next, floor, fe.0)
            &&& 0 <= trace_measure(next, fe.0) < trace_measure(bids, now)
        }),
{
    lemma_resolve_props(bids, inc, floor);
    let res = resolve_spec(bids, inc, floor)->Some_0;
    let i = res.0;
    let price = res.1;
    let horizon = res.2;
    let limit = bids[i].expense_limit.0 as int;
    let fe = find_end_spec(price, limit, horizon, now);

    // The horizon is an active bid's deadline, so it lies in the future.
    let j = choose|j: int| 0 <= j < bids.len() && (#[trigger] bids[j]).expiry.0 as int == horizon;
    assert(viable(bids[j], floor, now));
    assert(now < horizon);

    if price > 0 {
        let q = limit / price;
        lemma_fundamental_div_mod(limit, price);
        vstd::arithmetic::div_mod::lemma_mod_bound(limit, price);
        lemma_mul_inequality(0, q, price);
        // the winner affords its price, so at least one time unit is bought
        lemma_div_is_ordered(price, limit, price);
        vstd::arithmetic::div_mod::lemma_div_by_self(price);
        lemma_mul_inequality(1, q, price);
        if q + now > horizon {
            // the deadline arrives first; the exact charge fits the budget
            lemma_mul_inequality(horizon - now, q, price);
            vstd::arithmetic::mul::lemma_mul_nonnegative(horizon - now, price);
        }
    }
    assert(now < fe.0 <= horizon);
    assert(0 <= fe.1 <= limit);

    // The survivors are viable at the new clock.
    let charged = (Bid {
        bid: bids[i].bid,
        expense_limit: Token((bids[i].expense_limit.0 - fe.1) as u64),
        expiry: bids[i].expiry,
        data: bids[i].data,
    });
    let pp = |b: Bid<T>| b.expiry.0 as int > fe.0 && b.expense_limit.0 as int
        >= min_tokens_spec(floor);
    let next = next_round(bids, i, fe.1, floor, fe.0);
    assert(next == bids.update(i, charged).filter(pp));
    lemma_filter_subset(bids.update(i, charged), pp);
    broadcast use Seq::lemma_filter_pred;
    assert forall|m: int| 0 <= m < next.len() implies viable(#[trigger] next[m], floor, fe.0) by {
        assert(pp(bids.update(i, charged).filter(pp)[m]));
        assert(bids.update(i, charged).contains(bids.update(i, charged).filter(pp)[m]));
        let q = choose|q: int|
            0 <= q < bids.update(i, charged).len() && bids.update(i, charged)[q] == next[m];
        if q == i {
            assert(next[m].bid == bids[i].bid);
        } else {
            assert(next[m] == bids[q]);
        }
    }

    // The measure shrinks: no survivor's deadline exceeds the old bound,
    // and the clock strictly advanced.
    lemma_max_expiry_ub(bids);
    assert(bids[0].expiry.0 as int <= max_expiry(bids));
    assert(max_expiry(bids) - now >= 1);
    if next.len() > 0 {
        lemma_max_expiry_realized(next);
        let m = choose|m: int|
            0 <= m < next.len() && (#[trigger] next[m]).expiry.0 as int == max_expiry(next);
        assert(bids.update(i, charged).contains(next[m]));
        let q = choose|q: int|
            0 <= q < bids.update(i, charged).len() && bids.update(i, charged)[q] == next[m];
        if q == i {
            assert(next[m].expiry == bids[i].expiry);
        } else {
            assert(next[m].expiry == bids[q].expiry);
        }
        assert(max_expiry(next) <= max_expiry(bids));
    }
}

/// The whole run, as one deterministic sequence of allocation events
/// `(payload, finish, charged)`: resolve the winner, run its charge to the
/// spend horizon, cut its budget, prune, and repeat from the new clock
/// until no viable bid remains.
pub open spec fn auction_trace<T: Copy>(bids: Seq<Bid<T>>, inc: int, floor: int, now: int) -> Seq<
    (T, int, int),
>
    decreases trace_measure(bids, now),
        when inc >= 0 && floor >= 0 && now >= 0 && all_viable(bids, floor, now)
        via auction_trace_decreases::<T>
{
    if bids.len() == 0 {
        Seq::empty()
    } else {
        match resolve_spec(bids, inc, floor) {
            None => Seq::empty(),
            Some(res) => {
                let fe = find_end_spec(res.1, bids[res.0].expense_limit.0 as int, res.2, now);
                seq![(bids[res.0].data, fe.0, fe.1)] + auction_trace(
                    next_round(bids, res.0, fe.1, floor, fe.0),
                    inc,
                    floor,
                    fe.0,
                )
            },
        }
    }
}

#[via_fn]
proof fn auction_trace_decreases<T: Copy>(bids: Seq<Bid<T>>, inc: int, floor: int, now: int) {
    if bids.len() != 0 && resolve_spec(bids, inc, floor) is Some {
        lemma_step_decreases(bids, inc, floor, now);
    }
}

/// Monotonic clock: across any run, the clock stamped on successive events
/// strictly increases, and every event lies strictly after the start.
pub proof fn lemma_trace_monotonic<T: Copy>(bids: Seq<Bid<T>>, inc: int, floor: int, now: int)
    requires
        inc >= 0,
        floor >= 0,
        now >= 0,
        all_viable(bids, floor, now),
    ensures
        forall|a: int, b: int|
            0 <= a < b < auction_trace(bids, inc, floor, now).len() ==> (#[trigger] auction_trace(
                bids,
                inc,
                floor,
                now,
            )[a]).1 < (#[trigger] auction_trace(bids, inc, floor, now)[b]).1,
        forall|a: int|
            0 <= a < auction_trace(bids, inc, floor, now).len() ==> now < (#[trigger] auction_trace(
                bids,
                inc,
                floor,
                now,
            )[a]).1,
    decreases trace_measure(bids, now),
{
    let tr = auction_trace(bids, inc, floor, now);
    if bids.len() != 0 && resolve_spec(bids, inc, floor) is Some {
        let res = resolve_spec(bids, inc, floor)->Some_0;
        let fe = find_end_spec(res.1, bids[res.0].expense_limit.0 as int, res.2, now);
        let next = next_round(bids, res.0, fe.1, floor, fe.0);
        lemma_step_decreases(bids, inc, floor, now);
        lemma_trace_monotonic(next, inc, floor, fe.0);
        let rest = auction_trace(next, inc, floor, fe.0);
        assert(tr == seq![(bids[res.0].data, fe.0, fe.1)] + rest);
        assert(tr[0].1 == fe.0);
        assert forall|a: int| 0 <= a < tr.len() implies now < (#[trigger] tr[a]).1 by {
            if a > 0 {
                assert(tr[a] == rest[a - 1]);
            }
        }
        assert forall|a: int, b: int| 0 <= a < b < tr.len() implies (#[trigger] tr[a]).1 < (
        #[trigger] tr[b]).1 by {
            assert(tr[b] == rest[b - 1]);
            if a > 0 {
                assert(tr[a] == rest[a - 1]);
            }
        }
    }
}

/// A sole bidder, no contention, no floor: whatever its rate and budget,
/// it holds the slot until its own deadline and is charged nothing at all.
pub proof fn lemma_sole_bidder<T: Copy>(b: Bid<T>, inc: int, now: int)
    requires
        inc >= 0,
        0 <= now < b.expiry.0,
        b.bid.0 > 0,
        b.expense_limit.0 > 0,
    ensures
        auction_trace(seq![b], inc, 0, now) == seq![(b.data, b.expiry.0 as int, 0int)],
{
    let bids = seq![b];
    assert(viable(bids[0], 0, now));
    assert(all_viable(bids, 0, now));

    // The one bid resolves as the winner, at price zero, to its own
    // deadline.
    let pr = |p: (int, Bid<T>)| p.1.bid.0 as int >= 0;
    assert(indexed(bids) =~= Seq::<(int, Bid<T>)>::empty().push((0, b)));
    broadcast use Seq::lemma_filter_push;
    assert(Seq::<(int, Bid<T>)>::empty().filter(pr) =~= Seq::<(int, Bid<T>)>::empty()) by {
        reveal(Seq::filter);
    }
    assert(candidates(bids, 0) == seq![(0int, b)]) by {
        assert(Seq::<(int, Bid<T>)>::empty().push((0int, b)).filter(pr) =~= seq![(0int, b)]);
    }
    assert(seq![(0int, b)].drop_last() =~= Seq::<(int, Bid<T>)>::empty());
    assert(sort_desc(candidates(bids, 0)) == insert_desc(
        sort_desc(Seq::<(int, Bid<T>)>::empty()),
        (0int, b),
    ));
    assert(sort_desc(candidates(bids, 0)) =~= seq![(0int, b)]);
    assert(resolve_spec(bids, inc, 0) == Some((0int, 0int, b.expiry.0 as int))) by {
        assert(seq![(0int, b)].last() == (0int, b));
        assert(vstd::math::min(b.bid.0 as int, 0) == 0);
    }

    // A zero charge runs to the deadline and spends nothing, after which
    // the bid itself is pruned as expired.
    let fe = find_end_spec(0, b.expense_limit.0 as int, b.expiry.0 as int, now);
    assert(fe == (b.expiry.0 as int, 0int));
    let next = next_round(bids, 0, 0, 0, b.expiry.0 as int);
    assert(next.len() == 0) by {
        let charged = (Bid {
            bid: bids[0].bid,
            expense_limit: Token((bids[0].expense_limit.0 - 0) as u64),
            expiry: bids[0].expiry,
            data: bids[0].data,
        });
        let pp = |x: Bid<T>| x.expiry.0 as int > b.expiry.0 as int && x.expense_limit.0 as int
            >= min_tokens_spec(0);
        broadcast use Seq::lemma_filter_len;
        assert(bids.update(0, charged) =~= Seq::<Bid<T>>::empty().push(charged));
        assert(Seq::<Bid<T>>::empty().filter(pp) =~= Seq::<Bid<T>>::empty()) by {
            reveal(Seq::filter);
        }
        assert(Seq::<Bid<T>>::empty().push(charged).filter(pp) =~= Seq::<Bid<T>>::empty());
    }
    assert(auction_trace(next, inc, 0, b.expiry.0 as int) == Seq::<(T, int, int)>::empty());
    assert(auction_trace(bids, inc, 0, now) =~= seq![(b.data, b.expiry.0 as int, 0int)]);
}

/// The view of an event vector over mathematical integers.
pub open spec fn events_view<T: Copy>(out: Seq<(T, Second, Token)>) -> Seq<(T, int, int)> {
    out.map_values(|e: (T, Second, Token)| (e.0, e.1.0 as int, e.2.0 as int))
}

/// Run the whole auction: filter the pool down to the viable bids, then
/// repeatedly resolve the winner, charge it to its spend horizon, advance
/// the clock, prune, and record one `(payload, finish, charged)` event per
/// round, until no viable bid remains. The result is exactly the event
/// sequence that `auction_trace` assigns to the viable bids, and the clock
/// it records strictly increases from `now` across the whole run.
pub fn run_auction<T: Copy>(
    bids: Vec<Bid<T>>,
    increment: Currency,
    min_bid: Currency,
    now: Second,
) -> (r: Vec<(T, Second, Token)>)
    ensures
        events_view(r@) == auction_trace(
            bids@.filter(|b: Bid<T>| viable(b, min_bid.0 as int, now.0 as int)),
            increment.0 as int,
            min_bid.0 as int,
            now.0 as int,
        ),
        forall|a: int, b: int|
            0 <= a < b < r@.len() ==> (#[trigger] r@[a]).1.0 < (#[trigger] r@[b]).1.0,
        forall|a: int| 0 <= a < r@.len() ==> now.0 < (#[trigger] r@[a]).1.0,
{
    let ghost inc = increment.0 as int;
    let ghost floor = min_bid.0 as int;
    let ghost now0 = now.0 as int;
    let ghost vpred = |b: Bid<T>| viable(b, floor, now0);

    // Any less than this and a bid hasn't a chance: one time unit at the
    // floor, and at least one token.
    let min_tokens: u64 = if min_bid.0 >= 1 {
        min_bid.0
    } else {
        1
    };

    // Initial filtration.
    let mut act: Vec<Bid<T>> = Vec::new();
    let mut k: usize = 0;
    while k < bids.len()
        invariant
            k <= bids@.len(),
            floor == min_bid.0 as int,
            now0 == now.0 as int,
            min_tokens as int == min_tokens_spec(floor),
            vpred == (|b: Bid<T>| viable(b, floor, now0)),
            act@ == bids@.take(k as int).filter(vpred),
        decreases bids@.len() - k,
    {
        let b = bids[k];
        if b.expiry.0 > now.0 && b.bid.0 >= min_bid.0 && b.expense_limit.0 >= min_tokens {
            act.push(b);
        }
        proof {
            broadcast use Seq::lemma_filter_push;
            assert(bids@.take(k as int + 1) =~= bids@.take(k as int).push(bids@[k as int]));
        }
        k = k + 1;
    }
    proof {
        assert(bids@.take(bids@.len() as int) =~= bids@);
    }

    let ghost init = bids@.filter(vpred);
    let ghost full = auction_trace(init, inc, floor, now0);
    let mut t: u64 = now.0;
    let mut out: Vec<(T, Second, Token)> = Vec::new();
    proof {
        broadcast use Seq::lemma_filter_pred;
        assert forall|m: int| 0 <= m < act@.len() implies viable(
            #[trigger] act@[m],
            floor,
            t as int,
        ) by {
            assert(vpred(bids@.filter(vpred)[m]));
        }
    }

    while act.len() > 0
        invariant
            floor == min_bid.0 as int,
            inc == increment.0 as int,
            now0 == now.0 as int,
            min_tokens as int == min_tokens_spec(floor),
            now0 <= t as int,
            all_viable(act@, floor, t as int),
            full == auction_trace(init, inc, floor, now0),
            events_view(out@) + auction_trace(act@, inc, floor, t as int) == full,
            forall|a: int| 0 <= a < out@.len() ==> now0 < (#[trigger] out@[a]).1.0,
            forall|a: int, b: int|
                0 <= a < b < out@.len() ==> (#[trigger] out@[a]).1.0 < (#[trigger] out@[b]).1.0,
            forall|a: int| 0 <= a < out@.len() ==> (#[trigger] out@[a]).1.0 <= t,
        decreases trace_measure(act@, t as int),
    {
        let ghost prev_act = act@;
        let ghost prev_out = out@;
        let ghost t0 = t as int;
        let wb = winning_bid(&act, increment, min_bid);
        match wb {
            None => {
                // Unreachable: every active bid is viable, so it meets the
                // floor and can afford one time unit at it.
                proof {
                    assert(viable(act@[0], floor, t as int));
                    assert(false);
                }
                return out;
            },
            Some((wi, price, horizon)) => {
                proof {
                    lemma_step_decreases(act@, inc, floor, t as int);
                }
                let ghost res = (wi as int, price.0 as int, horizon.0 as int);
                let ghost fe = find_end_spec(res.1, prev_act[res.0].expense_limit.0 as int, res.2, t0);
                let limit: Token = act[wi].expense_limit;
                let end = find_end(price, limit, horizon, Second(t));
                let finish: Second = end.0;
                let spent: Token = end.1;
                proof {
                    assert((finish.0 as int, spent.0 as int) == fe);
                }
                // Progress guarantee: a nonzero charge spends a nonzero
                // amount, so the clock below strictly advances.
                proof {
                    assert(price.0 > 0 ==> spent.0 > 0);
                    assert(t < finish.0);
                }
                let data = act[wi].data;
                out.push((data, finish, spent));
                t = finish.0;

                // Charge the winner and prune everything no longer viable.
                let ghost charged = (Bid {
                    bid: prev_act[res.0].bid,
                    expense_limit: Token((prev_act[res.0].expense_limit.0 - fe.1) as u64),
                    expiry: prev_act[res.0].expiry,
                    data: prev_act[res.0].data,
                });
                let ghost mid = prev_act.update(res.0, charged);
                let ghost fin = finish.0 as int;
                let ghost pp = |b: Bid<T>| b.expiry.0 as int > fin && b.expense_limit.0 as int
                    >= min_tokens_spec(floor);
                let mut act2: Vec<Bid<T>> = Vec::new();
                let mut m: usize = 0;
                while m < act.len()
                    invariant
                        m <= act@.len(),
                        act@ == prev_act,
                        wi < act@.len(),
                        wi == res.0,
                        spent.0 as int == fe.1,
                        fe.1 <= prev_act[res.0].expense_limit.0 as int,
                        finish.0 as int == fin,
                        floor == min_bid.0 as int,
                        min_tokens as int == min_tokens_spec(floor),
                        mid == prev_act.update(res.0, charged),
                        charged == (Bid {
                            bid: prev_act[res.0].bid,
                            expense_limit: Token(
                                (prev_act[res.0].expense_limit.0 - fe.1) as u64,
                            ),
                            expiry: prev_act[res.0].expiry,
                            data: prev_act[res.0].data,
                        }),
                        pp == (|b: Bid<T>| b.expiry.0 as int > fin && b.expense_limit.0 as int
                            >= min_tokens_spec(floor)),
                        act2@ == mid.take(m as int).filter(pp),
                    decreases act@.len() - m,
                {
                    let mut b = act[m];
                    if m == wi {
                        b.expense_limit = b.expense_limit.sub(spent);
                    }
                    proof {
                        assert(b == mid[m as int]);
                    }
                    if b.expiry.0 > finish.0 && b.expense_limit.0 >= min_tokens {
                        act2.push(b);
                    }
                    proof {
                        broadcast use Seq::lemma_filter_push;
                        assert(mid.take(m as int + 1) =~= mid.take(m as int).push(
                            mid[m as int],
                        ));
                    }
                    m = m + 1;
                }
                act = act2;
                proof {
                    assert(mid.take(mid.len() as int) =~= mid);
                    assert(act@ == next_round(prev_act, res.0, fe.1, floor, fin));
                    // One unfolding of the trace at the previous state.
                    assert(auction_trace(prev_act, inc, floor, t0) == seq![
                        (prev_act[res.0].data, fe.0, fe.1),
                    ] + auction_trace(act@, inc, floor, fin));
                    assert(out@ == prev_out.push((data, finish, spent)));
                    assert(events_view(out@) =~= events_view(prev_out).push(
                        (data, fin, spent.0 as int),
                    ));
                    assert(data == prev_act[res.0].data);
                    assert(events_view(out@) + auction_trace(act@, inc, floor, fin)
                        =~= events_view(prev_out) + auction_trace(prev_act, inc, floor, t0));
                }
            },
        }
    }
    proof {
        assert(auction_trace(act@, inc, floor, t as int) =~= Seq::<(T, int, int)>::empty());
        assert(events_view(out@) + auction_trace(act@, inc, floor, t as int) =~= events_view(
            out@,
        ));
        assert(vpred == (|b: Bid<T>| viable(b, min_bid.0 as int, now.0 as int)));
    }
    out
}

} // verus!
