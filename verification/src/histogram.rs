//! Time-of-day workload histogram.
//!
//! All calendar days collapse onto one 24-hour axis, divided into slots
//! of a fixed width that must divide the day evenly; every split
//! sub-session credits each slot with the time it overlaps it.  The
//! superposition is intentional: it shows the typical daily shape of the
//! recorded work.

use vstd::prelude::*;

use crate::dates::{tod_of, SECS_PER_DAY};
use crate::dates::civil_tod;
use crate::parser::{GCivil, NaiveSession};
use crate::summary::subs_ok;

verus! {

/// An invalid histogram configuration: the slot width must be positive
/// and divide the day evenly.
#[derive(Debug, Clone, Copy, PartialEq, Eq, Structural)]
pub enum HistogramError {
    InvalidSlotWidth,
}

/// The time-of-day interval a sub-session covers: its start's time of
/// day, extended by its duration.  A day-bounded sub-session ending
/// exactly at midnight thus ends at the full day length rather than at
/// zero, so the last slots of the day are credited correctly.
pub open spec fn tod_interval(s: GCivil) -> (int, int) {
    (tod_of(s.start), tod_of(s.start) + s.end - s.start)
}

/// The length of the overlap of two half-open intervals.
pub open spec fn overlap(a0: int, a1: int, b0: int, b1: int) -> int {
    let lo = if a0 >= b0 {
        a0
    } else {
        b0
    };
    let hi = if a1 <= b1 {
        a1
    } else {
        b1
    };
    if hi > lo {
        hi - lo
    } else {
        0
    }
}

/// The total time the sub-sessions spend inside slot `i` of width `w`,
/// the slot spanning `[w*i, w*(i+1))` on the time-of-day axis.
pub open spec fn slot_total(subs: Seq<GCivil>, w: int, i: int) -> int
    decreases subs.len(),
{
    if subs.len() == 0 {
        0
    } else {
        slot_total(subs.drop_last(), w, i) + overlap(
            tod_interval(subs.last()).0,
            tod_interval(subs.last()).1,
            w * i,
            w * (i + 1),
        )
    }
}

/// The sum of the first `n` slot totals.
pub open spec fn grand_total(subs: Seq<GCivil>, w: int, n: int) -> int
    decreases n,
{
    if n <= 0 {
        0
    } else {
        grand_total(subs, w, n - 1) + slot_total(subs, w, n - 1)
    }
}

/// A time-of-day histogram: the accumulated duration of each slot, and
/// the grand total over all slots, from which each slot's fraction of
/// the whole follows.
#[derive(Debug)]
pub struct Histogram {
    pub slots: Vec<u128>,
    pub total: u128,
}

proof fn lemma_slot_total_bound(subs: Seq<GCivil>, w: int, i: int)
    requires
        subs_ok(subs),
    ensures
        0 <= slot_total(subs, w, i) <= subs.len() * (SECS_PER_DAY as int),
    decreases subs.len(),
{
    if subs.len() == 0 {
    } else {
        let pre = subs.drop_last();
        assert(subs_ok(pre)) by {
            assert(forall|k: int| 0 <= k < pre.len() ==> pre[k] == #[trigger] subs[k]);
        }
        lemma_slot_total_bound(pre, w, i);
        let s = subs.last();
        assert(s.end - s.start <= SECS_PER_DAY) by {
            crate::dates::lemma_day_bounds(s.start);
        }
        assert(0 <= overlap(tod_interval(s).0, tod_interval(s).1, w * i, w * (i + 1))
            <= SECS_PER_DAY);
        assert((subs.len() - 1) * (SECS_PER_DAY as int) + (SECS_PER_DAY as int) == subs.len() * (
        SECS_PER_DAY as int)) by (nonlinear_arith);
    }
}

proof fn lemma_grand_total_bound(subs: Seq<GCivil>, w: int, n: int)
    requires
        subs_ok(subs),
        n >= 0,
    ensures
        0 <= grand_total(subs, w, n) <= n * (subs.len() * (SECS_PER_DAY as int)),
    decreases n,
{
    if n == 0 {
    } else {
        lemma_grand_total_bound(subs, w, n - 1);
        lemma_slot_total_bound(subs, w, n - 1);
        assert((n - 1) * (subs.len() * (SECS_PER_DAY as int)) + (subs.len() * (
        SECS_PER_DAY as int)) == n * (subs.len() * (SECS_PER_DAY as int))) by (nonlinear_arith);
    }
}

/// The time-of-day histogram of a set of split sub-sessions, at the given
/// slot width in seconds.  A width that is not positive or does not
/// divide the day evenly is a configuration error, rejected before any
/// accumulation.
#[verifier::loop_isolation(false)]
#[verifier::rlimit(60)]
pub fn histogram(subs: &Vec<NaiveSession>, slot_secs: i64) -> (r: Result<
    Histogram,
    HistogramError,
>)
    requires
        subs_ok(subs.deep_view()),
    ensures
        r is Err <==> !(0 < slot_secs && (SECS_PER_DAY as int) % (slot_secs as int) == 0),
        r matches Ok(h) ==> {
            &&& h.slots@.len() == (SECS_PER_DAY as int) / (slot_secs as int)
            &&& forall|i: int|
                0 <= i < h.slots@.len() ==> (#[trigger] h.slots@[i]) as int == slot_total(
                    subs.deep_view(),
                    slot_secs as int,
                    i,
                )
            &&& h.total as int == grand_total(
                subs.deep_view(),
                slot_secs as int,
                h.slots@.len() as int,
            )
        },
{
    if slot_secs <= 0 {
        return Err(HistogramError::InvalidSlotWidth);
    }
    let w = slot_secs as u64;
    if 86400u64 % w != 0 {
        proof {
            assert((SECS_PER_DAY as int) % (slot_secs as int) != 0);
        }
        return Err(HistogramError::InvalidSlotWidth);
    }
    proof {
        assert((SECS_PER_DAY as int) % (slot_secs as int) == 0);
    }
    let n_slots = (86400u64 / w) as usize;
    let ghost gsubs = subs.deep_view();
    let ghost gw = slot_secs as int;
    proof {
        vstd::arithmetic::div_mod::lemma_fundamental_div_mod(SECS_PER_DAY as int, gw);
        assert(n_slots as int == (SECS_PER_DAY as int) / gw);
        assert(n_slots <= 86400);
        if slot_secs > SECS_PER_DAY {
            vstd::arithmetic::div_mod::lemma_small_mod(SECS_PER_DAY as nat, slot_secs as nat);
            assert(false);
        }
    }
    let mut slots: Vec<u128> = Vec::new();
    let mut i: usize = 0;
    while i < n_slots
        invariant
            i <= n_slots,
            slots@.len() == i,
            forall|k: int| 0 <= k < i ==> (#[trigger] slots@[k]) as int == slot_total(
                gsubs.take(0),
                gw,
                k,
            ),
        decreases n_slots - i,
    {
        slots.push(0);
        proof {
            assert(gsubs.take(0) =~= Seq::<GCivil>::empty());
        }
        i = i + 1;
    }
    let n_subs = subs.len();
    let mut k: usize = 0;
    while k < n_subs
        invariant
            k <= n_subs,
            n_subs == gsubs.len(),
            slots@.len() == n_slots,
            n_slots as int == (SECS_PER_DAY as int) / gw,
            n_slots <= 86400,
            0 < slot_secs,
            gw == slot_secs as int,
            forall|q: int| 0 <= q < n_slots ==> (#[trigger] slots@[q]) as int == slot_total(
                gsubs.take(k as int),
                gw,
                q,
            ),
        decreases n_subs - k,
    {
        let ghost done = gsubs.take(k as int);
        let s = &subs[k];
        proof {
            assert(s@ == gsubs[k as int]);
            assert(subs_ok(gsubs));
            assert(gsubs[k as int].wf() && gsubs[k as int].start < gsubs[k as int].end
                <= crate::parser::next_midnight(gsubs[k as int].start));
            crate::dates::lemma_day_bounds(s@.start);
        }
        let tod_start = civil_tod(s.start);
        let dur = s.end - s.start;
        let tod_end = tod_start + dur;
        let mut q: usize = 0;
        while q < n_slots
            invariant
                q <= n_slots,
                slots@.len() == n_slots,
                n_slots <= 86400,
                0 < slot_secs,
                gw == slot_secs as int,
                k < n_subs,
                n_subs == gsubs.len(),
                tod_start == tod_of(gsubs[k as int].start),
                tod_end as int == tod_interval(gsubs[k as int]).1,
                0 <= tod_start < SECS_PER_DAY,
                0 <= tod_end <= SECS_PER_DAY,
                slot_secs <= SECS_PER_DAY,
                forall|p: int| q <= p < n_slots ==> (#[trigger] slots@[p]) as int == slot_total(
                    gsubs.take(k as int),
                    gw,
                    p,
                ),
                forall|p: int| 0 <= p < q ==> (#[trigger] slots@[p]) as int == slot_total(
                    gsubs.take(k as int + 1),
                    gw,
                    p,
                ),
            decreases n_slots - q,
        {
            proof {
                assert(gw * (q as int) <= gw * (n_slots as int) && gw * (q as int + 1) <= gw * (
                n_slots as int)) by (nonlinear_arith)
                    requires
                        0 < gw,
                        q as int + 1 <= n_slots as int,
                ;
                assert(gw * (n_slots as int) == SECS_PER_DAY as int) by {
                    vstd::arithmetic::div_mod::lemma_fundamental_div_mod(
                        SECS_PER_DAY as int,
                        gw,
                    );
                }
                assert(0 <= gw * (q as int)) by (nonlinear_arith)
                    requires
                        0 < gw,
                        0 <= q as int,
                ;
            }
            let slot_lo = slot_secs * (q as i64);
            let slot_hi = slot_secs * (q as i64 + 1);
            let lo = if tod_start >= slot_lo {
                tod_start
            } else {
                slot_lo
            };
            let hi = if tod_end <= slot_hi {
                tod_end
            } else {
                slot_hi
            };
            let ov: i64 = if hi > lo {
                hi - lo
            } else {
                0
            };
            proof {
                assert(ov as int == overlap(
                    tod_interval(gsubs[k as int]).0,
                    tod_interval(gsubs[k as int]).1,
                    gw * (q as int),
                    gw * (q as int + 1),
                ));
                lemma_slot_total_bound(gsubs.take(k as int), gw, q as int);
                assert(gsubs.take(k as int).len() * (SECS_PER_DAY as int) + (SECS_PER_DAY as int)
                    <= (usize::MAX as int) * (SECS_PER_DAY as int)) by (nonlinear_arith)
                    requires
                        gsubs.take(k as int).len() <= usize::MAX as int - 1,
                ;
                assert(gsubs.take(k as int + 1).drop_last() =~= gsubs.take(k as int));
                assert(gsubs.take(k as int + 1).last() == gsubs[k as int]);
            }
            let cur = slots[q];
            slots[q] = cur + (ov as u128);
            q = q + 1;
        }
        proof {
            assert(forall|p: int|
                0 <= p < n_slots ==> (#[trigger] slots@[p]) as int == slot_total(
                    gsubs.take(k as int + 1),
                    gw,
                    p,
                ));
        }
        k = k + 1;
    }
    proof {
        assert(gsubs.take(n_subs as int) =~= gsubs);
    }
    let mut total: u128 = 0;
    let mut t: usize = 0;
    while t < n_slots
        invariant
            t <= n_slots,
            slots@.len() == n_slots,
            n_slots <= 86400,
            n_subs == gsubs.len(),
            gw == slot_secs as int,
            forall|p: int| 0 <= p < n_slots ==> (#[trigger] slots@[p]) as int == slot_total(
                gsubs,
                gw,
                p,
            ),
            total as int == grand_total(gsubs, gw, t as int),
        decreases n_slots - t,
    {
        proof {
            lemma_grand_total_bound(gsubs, gw, t as int + 1);
            assert((t as int + 1) * (gsubs.len() * (SECS_PER_DAY as int)) <= 86400 * ((
            usize::MAX as int) * (SECS_PER_DAY as int))) by (nonlinear_arith)
                requires
                    0 <= t as int + 1 <= 86400,
                    0 <= gsubs.len() <= usize::MAX as int,
            ;
        }
        total = total + slots[t];
        t = t + 1;
    }
    Ok(Histogram { slots, total })
}

/// A single sub-session spanning exactly one full day fills every slot
/// with exactly the slot width, and the grand total over all slots is
/// the whole day.
pub proof fn lemma_full_day_histogram(s: GCivil, w: int)
    requires
        0 < w,
        (SECS_PER_DAY as int) % w == 0,
        tod_of(s.start) == 0,
        s.end - s.start == SECS_PER_DAY,
    ensures
        forall|i: int|
            0 <= i < (SECS_PER_DAY as int) / w ==> slot_total(seq![s], w, i) == w,
        grand_total(seq![s], w, (SECS_PER_DAY as int) / w) == SECS_PER_DAY,
{
    let n = (SECS_PER_DAY as int) / w;
    vstd::arithmetic::div_mod::lemma_fundamental_div_mod(SECS_PER_DAY as int, w);
    assert(w * n == SECS_PER_DAY as int);
    assert forall|i: int| 0 <= i < n implies slot_total(seq![s], w, i) == w by {
        assert(seq![s].drop_last() =~= Seq::<GCivil>::empty());
        assert(slot_total(Seq::<GCivil>::empty(), w, i) == 0);
        assert(0 <= w * i && w * (i + 1) <= w * n) by (nonlinear_arith)
            requires
                0 < w,
                0 <= i,
                i + 1 <= n,
        ;
        assert(w * (i + 1) == w * i + w) by (nonlinear_arith);
        assert(overlap(0, SECS_PER_DAY as int, w * i, w * (i + 1)) == w);
    }
    lemma_grand_is_n_w(s, w, n);
}

proof fn lemma_grand_is_n_w(s: GCivil, w: int, k: int)
    requires
        0 < w,
        (SECS_PER_DAY as int) % w == 0,
        tod_of(s.start) == 0,
        s.end - s.start == SECS_PER_DAY,
        0 <= k <= (SECS_PER_DAY as int) / w,
    ensures
        grand_total(seq![s], w, k) == k * w,
    decreases k,
{
    if k == 0 {
    } else {
        lemma_grand_is_n_w(s, w, k - 1);
        let n = (SECS_PER_DAY as int) / w;
        vstd::arithmetic::div_mod::lemma_fundamental_div_mod(SECS_PER_DAY as int, w);
        assert(seq![s].drop_last() =~= Seq::<GCivil>::empty());
        assert(slot_total(Seq::<GCivil>::empty(), w, k - 1) == 0);
        assert(0 <= w * (k - 1) && w * k <= w * n) by (nonlinear_arith)
            requires
                0 < w,
                0 < k,
                k <= n,
        ;
        assert(w * k == w * (k - 1) + w) by (nonlinear_arith);
        assert(overlap(0, SECS_PER_DAY as int, w * (k - 1), w * k) == w);
        assert((k - 1) * w + w == k * w) by (nonlinear_arith);
    }
}

} // verus!
