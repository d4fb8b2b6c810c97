//! Global laws of the sweep: event counts, open/close pairing, depth
//! non-negativity, and determinism.

use vstd::prelude::*;

use crate::point::EventModel;
use crate::region::{lemma_pos_le_trans, lemma_pos_total, pos_le, RegionModel};
use crate::sweep::{
    close_event, lemma_min_idx, min_idx, open_event, pend_before, sweep_from, sweep_seq,
    PendingModel,
};

verus! {

/// How many open events with origin index `k` the sequence holds.
pub open spec fn count_open(s: Seq<EventModel>, k: int) -> int
    decreases s.len(),
{
    if s.len() == 0 {
        0
    } else {
        (if s[0].is_open && s[0].index == k {
            1 as int
        } else {
            0
        }) + count_open(s.drop_first(), k)
    }
}

/// How many close events with origin index `k` the sequence holds.
pub open spec fn count_close(s: Seq<EventModel>, k: int) -> int
    decreases s.len(),
{
    if s.len() == 0 {
        0
    } else {
        (if !s[0].is_open && s[0].index == k {
            1 as int
        } else {
            0
        }) + count_close(s.drop_first(), k)
    }
}

/// How many pending entries with origin index `k` the sequence holds.
pub open spec fn count_pending(s: Seq<PendingModel>, k: int) -> int
    decreases s.len(),
{
    if s.len() == 0 {
        0
    } else {
        (if s[0].index == k {
            1 as int
        } else {
            0
        }) + count_pending(s.drop_first(), k)
    }
}

proof fn lemma_counts_cons(e: EventModel, rest: Seq<EventModel>, k: int)
    ensures
        count_open(seq![e] + rest, k) == (if e.is_open && e.index == k {
            1 as int
        } else {
            0
        }) + count_open(rest, k),
        count_close(seq![e] + rest, k) == (if !e.is_open && e.index == k {
            1 as int
        } else {
            0
        }) + count_close(rest, k),
{
    assert((seq![e] + rest).drop_first() =~= rest);
    assert((seq![e] + rest)[0] == e);
}

proof fn lemma_count_pending_concat(a: Seq<PendingModel>, b: Seq<PendingModel>, k: int)
    ensures
        count_pending(a + b, k) == count_pending(a, k) + count_pending(b, k),
    decreases a.len(),
{
    if a.len() == 0 {
        assert(a + b =~= b);
    } else {
        assert((a + b).drop_first() =~= a.drop_first() + b);
        assert((a + b)[0] == a[0]);
        lemma_count_pending_concat(a.drop_first(), b, k);
    }
}

proof fn lemma_count_pending_remove(s: Seq<PendingModel>, m: int, k: int)
    requires
        0 <= m < s.len(),
    ensures
        count_pending(s.remove(m), k) == count_pending(s, k) - (if s[m].index == k {
            1 as int
        } else {
            0
        }),
{
    let a = s.subrange(0, m);
    let b = s.subrange(m + 1, s.len() as int);
    assert(s =~= a + (seq![s[m]] + b));
    lemma_count_pending_concat(a, seq![s[m]] + b, k);
    assert((seq![s[m]] + b).drop_first() =~= b);
    assert(s.remove(m) =~= a + b);
    lemma_count_pending_concat(a, b, k);
}

proof fn lemma_count_pending_push(s: Seq<PendingModel>, p: PendingModel, k: int)
    ensures
        count_pending(s.push(p), k) == count_pending(s, k) + (if p.index == k {
            1 as int
        } else {
            0
        }),
{
    assert(s.push(p) =~= s + seq![p]);
    lemma_count_pending_concat(s, seq![p], k);
    assert(seq![p].drop_first() =~= Seq::<PendingModel>::empty());
    assert(seq![p][0] == p);
    assert(count_pending(Seq::<PendingModel>::empty(), k) == 0);
    assert(count_pending(seq![p], k) == (if p.index == k {
        1 as int
    } else {
        0
    }));
}

proof fn lemma_count_pending_nonneg(s: Seq<PendingModel>, k: int)
    ensures
        count_pending(s, k) >= 0,
    decreases s.len(),
{
    if s.len() > 0 {
        lemma_count_pending_nonneg(s.drop_first(), k);
    }
}

proof fn lemma_count_close_exists(s: Seq<EventModel>, k: int)
    requires
        count_close(s, k) > 0,
    ensures
        exists|j: int| 0 <= j < s.len() && !(#[trigger] s[j]).is_open && s[j].index == k,
    decreases s.len(),
{
    if !s[0].is_open && s[0].index == k {
        assert(0 <= 0 < s.len() && !s[0].is_open && s[0].index == k);
    } else {
        lemma_count_close_exists(s.drop_first(), k);
        let j0 = choose|j: int|
            0 <= j < s.drop_first().len() && !(#[trigger] s.drop_first()[j]).is_open
                && s.drop_first()[j].index == k;
        assert(s[j0 + 1] == s.drop_first()[j0]);
    }
}

/// One sweep step at a time: past `pos`, each upstream region contributes
/// exactly one open event, and one close event beyond those already pending.
proof fn lemma_sweep_from_counts(
    regions: Seq<RegionModel>,
    pos: int,
    pending: Seq<PendingModel>,
    k: int,
)
    requires
        0 <= pos <= regions.len(),
    ensures
        count_open(sweep_from(regions, pos, pending), k) == (if pos <= k < regions.len() {
            1 as int
        } else {
            0
        }),
        count_close(sweep_from(regions, pos, pending), k) == (if pos <= k < regions.len() {
            1 as int
        } else {
            0
        }) + count_pending(pending, k),
    decreases 2 * regions.len() - 2 * pos + pending.len(),
{
    if pending.len() > 0 {
        lemma_min_idx(pending);
    }
    if pos < regions.len() {
        let r = regions[pos];
        if pending.len() > 0 && pend_before(pending[min_idx(pending)], r.chrom, r.begin) {
            let m = min_idx(pending);
            lemma_counts_cons(
                close_event(pending[m], pending.len() - 1),
                sweep_from(regions, pos, pending.remove(m)),
                k,
            );
            lemma_count_pending_remove(pending, m, k);
            lemma_sweep_from_counts(regions, pos, pending.remove(m), k);
        } else {
            let p = PendingModel { index: pos, region: r };
            lemma_counts_cons(
                open_event(pos, r, pending.len() + 1 as int),
                sweep_from(regions, pos + 1, pending.push(p)),
                k,
            );
            lemma_count_pending_push(pending, p, k);
            lemma_sweep_from_counts(regions, pos + 1, pending.push(p), k);
        }
    } else if pending.len() > 0 {
        let m = min_idx(pending);
        lemma_counts_cons(
            close_event(pending[m], pending.len() - 1),
            sweep_from(regions, pos, pending.remove(m)),
            k,
        );
        lemma_count_pending_remove(pending, m, k);
        lemma_sweep_from_counts(regions, pos, pending.remove(m), k);
    }
}

proof fn lemma_sweep_from_len(regions: Seq<RegionModel>, pos: int, pending: Seq<PendingModel>)
    requires
        0 <= pos <= regions.len(),
    ensures
        sweep_from(regions, pos, pending).len() == 2 * (regions.len() - pos) + pending.len(),
    decreases 2 * regions.len() - 2 * pos + pending.len(),
{
    if pending.len() > 0 {
        lemma_min_idx(pending);
    }
    if pos < regions.len() {
        let r = regions[pos];
        if pending.len() > 0 && pend_before(pending[min_idx(pending)], r.chrom, r.begin) {
            lemma_sweep_from_len(regions, pos, pending.remove(min_idx(pending)));
        } else {
            lemma_sweep_from_len(
                regions,
                pos + 1,
                pending.push(PendingModel { index: pos, region: r }),
            );
        }
    } else if pending.len() > 0 {
        lemma_sweep_from_len(regions, pos, pending.remove(min_idx(pending)));
    }
}

proof fn lemma_sweep_from_depths(regions: Seq<RegionModel>, pos: int, pending: Seq<PendingModel>)
    requires
        0 <= pos <= regions.len(),
    ensures
        forall|i: int|
            0 <= i < sweep_from(regions, pos, pending).len() ==> (#[trigger] sweep_from(
                regions,
                pos,
                pending,
            )[i]).depth >= 0,
    decreases 2 * regions.len() - 2 * pos + pending.len(),
{
    if pending.len() > 0 {
        lemma_min_idx(pending);
    }
    let out = sweep_from(regions, pos, pending);
    if pos < regions.len() {
        let r = regions[pos];
        if pending.len() > 0 && pend_before(pending[min_idx(pending)], r.chrom, r.begin) {
            lemma_sweep_from_depths(regions, pos, pending.remove(min_idx(pending)));
            let rest = sweep_from(regions, pos, pending.remove(min_idx(pending)));
            assert(forall|i: int| 1 <= i < out.len() ==> out[i] == rest[i - 1]);
        } else {
            let p = PendingModel { index: pos, region: r };
            lemma_sweep_from_depths(regions, pos + 1, pending.push(p));
            let rest = sweep_from(regions, pos + 1, pending.push(p));
            assert(forall|i: int| 1 <= i < out.len() ==> out[i] == rest[i - 1]);
        }
    } else if pending.len() > 0 {
        lemma_sweep_from_depths(regions, pos, pending.remove(min_idx(pending)));
        let rest = sweep_from(regions, pos, pending.remove(min_idx(pending)));
        assert(forall|i: int| 1 <= i < out.len() ==> out[i] == rest[i - 1]);
    }
}

/// Past `pos`, every upstream region's open event precedes its close event.
proof fn lemma_sweep_from_precedes(
    regions: Seq<RegionModel>,
    pos: int,
    pending: Seq<PendingModel>,
    k: int,
)
    requires
        0 <= pos <= k < regions.len(),
        forall|i: int| 0 <= i < pending.len() ==> (#[trigger] pending[i]).index < pos,
    ensures
        exists|i: int, j: int|
            {
                &&& 0 <= i < j < sweep_from(regions, pos, pending).len()
                &&& (#[trigger] sweep_from(regions, pos, pending)[i]).is_open
                &&& sweep_from(regions, pos, pending)[i].index == k
                &&& !(#[trigger] sweep_from(regions, pos, pending)[j]).is_open
                &&& sweep_from(regions, pos, pending)[j].index == k
            },
    decreases 2 * regions.len() - 2 * pos + pending.len(),
{
    if pending.len() > 0 {
        lemma_min_idx(pending);
    }
    let out = sweep_from(regions, pos, pending);
    let r = regions[pos];
    if pending.len() > 0 && pend_before(pending[min_idx(pending)], r.chrom, r.begin) {
        let m = min_idx(pending);
        let rest = sweep_from(regions, pos, pending.remove(m));
        lemma_sweep_from_precedes(regions, pos, pending.remove(m), k);
        let (i0, j0) = choose|i: int, j: int|
            {
                &&& 0 <= i < j < rest.len()
                &&& (#[trigger] rest[i]).is_open
                &&& rest[i].index == k
                &&& !(#[trigger] rest[j]).is_open
                &&& rest[j].index == k
            };
        assert(out[i0 + 1] == rest[i0]);
        assert(out[j0 + 1] == rest[j0]);
    } else if k == pos {
        let p = PendingModel { index: pos, region: r };
        let rest = sweep_from(regions, pos + 1, pending.push(p));
        lemma_sweep_from_counts(regions, pos + 1, pending.push(p), k);
        lemma_count_pending_push(pending, p, k);
        lemma_count_pending_nonneg(pending, k);
        lemma_count_close_exists(rest, k);
        let j0 = choose|j: int|
            0 <= j < rest.len() && !(#[trigger] rest[j]).is_open && rest[j].index == k;
        assert(out[0] == open_event(pos, r, pending.len() + 1 as int));
        assert(out[j0 + 1] == rest[j0]);
        assert(0 <= 0 < j0 + 1 < out.len() && out[0].is_open && out[0].index == k && !out[j0
            + 1].is_open && out[j0 + 1].index == k);
    } else {
        let p = PendingModel { index: pos, region: r };
        let rest = sweep_from(regions, pos + 1, pending.push(p));
        lemma_sweep_from_precedes(regions, pos + 1, pending.push(p), k);
        let (i0, j0) = choose|i: int, j: int|
            {
                &&& 0 <= i < j < rest.len()
                &&& (#[trigger] rest[i]).is_open
                &&& rest[i].index == k
                &&& !(#[trigger] rest[j]).is_open
                &&& rest[j].index == k
            };
        assert(out[i0 + 1] == rest[i0]);
        assert(out[j0 + 1] == rest[j0]);
    }
}

/// Every region is a well-formed interval: its begin is at or before its
/// end.
pub open spec fn regions_wf(rs: Seq<RegionModel>) -> bool {
    forall|i: int| 0 <= i < rs.len() ==> (#[trigger] rs[i]).begin <= rs[i].end
}

/// The upstream sequence is sorted by `(chrom, begin)`.
pub open spec fn regions_sorted(rs: Seq<RegionModel>) -> bool {
    forall|i: int, j: int|
        0 <= i < j < rs.len() ==> pos_le(
            (#[trigger] rs[i]).chrom,
            rs[i].begin,
            (#[trigger] rs[j]).chrom,
            rs[j].begin,
        )
}

/// The emitted boundary positions never decrease.
pub open spec fn events_position_sorted(s: Seq<EventModel>) -> bool {
    forall|i: int|
        0 <= i < s.len() - 1 ==> pos_le(
            (#[trigger] s[i]).chrom(),
            s[i].coord(),
            s[i + 1].chrom(),
            s[i + 1].coord(),
        )
}

/// One sweep step at a time: with sorted, well-formed regions and every
/// outstanding boundary at or after `(lc, lx)`, the emitted positions never
/// decrease and never fall before `(lc, lx)`.
proof fn lemma_sweep_from_position_sorted(
    regions: Seq<RegionModel>,
    pos: int,
    pending: Seq<PendingModel>,
    lc: Seq<char>,
    lx: u32,
)
    requires
        0 <= pos <= regions.len(),
        regions_wf(regions),
        regions_sorted(regions),
        forall|i: int|
            0 <= i < pending.len() ==> pos_le(
                lc,
                lx,
                (#[trigger] pending[i]).region.chrom,
                pending[i].region.end,
            ),
        pos < regions.len() ==> pos_le(lc, lx, regions[pos].chrom, regions[pos].begin),
    ensures
        events_position_sorted(sweep_from(regions, pos, pending)),
        forall|i: int|
            0 <= i < sweep_from(regions, pos, pending).len() ==> pos_le(
                lc,
                lx,
                (#[trigger] sweep_from(regions, pos, pending)[i]).chrom(),
                sweep_from(regions, pos, pending)[i].coord(),
            ),
    decreases 2 * regions.len() - 2 * pos + pending.len(),
{
    if pending.len() > 0 {
        lemma_min_idx(pending);
    }
    let out = sweep_from(regions, pos, pending);
    let flushing = pending.len() > 0 && (pos == regions.len() || pend_before(
        pending[min_idx(pending)],
        regions[pos].chrom,
        regions[pos].begin,
    ));
    if flushing {
        let m = min_idx(pending);
        let p0 = pending[m];
        let rem = pending.remove(m);
        assert forall|j: int| 0 <= j < rem.len() implies pos_le(
            p0.region.chrom,
            p0.region.end,
            (#[trigger] rem[j]).region.chrom,
            rem[j].region.end,
        ) by {
            let jj: int = if j < m {
                j
            } else {
                j + 1
            };
            assert(rem[j] == pending[jj]);
            assert(!crate::sweep::pend_lt(pending[jj], pending[min_idx(pending)]));
            lemma_pos_total(
                pending[jj].region.chrom,
                pending[jj].region.end,
                p0.region.chrom,
                p0.region.end,
            );
        }
        lemma_sweep_from_position_sorted(regions, pos, rem, p0.region.chrom, p0.region.end);
        let rest = sweep_from(regions, pos, rem);
        assert(forall|i: int| 1 <= i < out.len() ==> out[i] == rest[i - 1]);
        assert(out[0] == close_event(p0, pending.len() - 1));
        assert forall|i: int| 0 <= i < out.len() implies pos_le(
            lc,
            lx,
            (#[trigger] out[i]).chrom(),
            out[i].coord(),
        ) by {
            if i > 0 {
                lemma_pos_le_trans(
                    lc,
                    lx,
                    p0.region.chrom,
                    p0.region.end,
                    out[i].chrom(),
                    out[i].coord(),
                );
            }
        }
    } else if pos < regions.len() {
        let r = regions[pos];
        let p = PendingModel { index: pos, region: r };
        let pushed = pending.push(p);
        assert forall|j: int| 0 <= j < pushed.len() implies pos_le(
            r.chrom,
            r.begin,
            (#[trigger] pushed[j]).region.chrom,
            pushed[j].region.end,
        ) by {
            if j < pending.len() {
                let mp = pending[min_idx(pending)];
                assert(!pend_before(mp, r.chrom, r.begin));
                assert(!crate::sweep::pend_lt(pending[j], pending[min_idx(pending)]));
                lemma_pos_total(mp.region.chrom, mp.region.end, r.chrom, r.begin);
                lemma_pos_total(
                    pending[j].region.chrom,
                    pending[j].region.end,
                    mp.region.chrom,
                    mp.region.end,
                );
                lemma_pos_le_trans(
                    r.chrom,
                    r.begin,
                    mp.region.chrom,
                    mp.region.end,
                    pending[j].region.chrom,
                    pending[j].region.end,
                );
            }
        }
        lemma_sweep_from_position_sorted(regions, pos + 1, pushed, r.chrom, r.begin);
        let rest = sweep_from(regions, pos + 1, pushed);
        assert(forall|i: int| 1 <= i < out.len() ==> out[i] == rest[i - 1]);
        assert(out[0] == open_event(pos, r, pending.len() + 1 as int));
        assert forall|i: int| 0 <= i < out.len() implies pos_le(
            lc,
            lx,
            (#[trigger] out[i]).chrom(),
            out[i].coord(),
        ) by {
            if i > 0 {
                lemma_pos_le_trans(lc, lx, r.chrom, r.begin, out[i].chrom(), out[i].coord());
            }
        }
    }
}

/// Ordering law: over a well-formed upstream sequence sorted by
/// `(chrom, begin)`, the emitted boundary positions never decrease.
///
/// The guarantee speaks of positions alone: at an exact position tie the
/// engine opens the next interval before flushing the pending close, so a
/// close and an open sharing a position may come out in either kind order.
pub proof fn lemma_ordering_law(regions: Seq<RegionModel>)
    requires
        regions_wf(regions),
        regions_sorted(regions),
    ensures
        events_position_sorted(sweep_seq(regions)),
{
    if regions.len() > 0 {
        lemma_sweep_from_position_sorted(
            regions,
            0,
            Seq::empty(),
            regions[0].chrom,
            regions[0].begin,
        );
    }
}

/// Past `pos`, every emitted event carries the upstream region it
/// originated from, provided the pending entries already do.
proof fn lemma_sweep_from_origins(regions: Seq<RegionModel>, pos: int, pending: Seq<PendingModel>)
    requires
        0 <= pos <= regions.len(),
        forall|i: int|
            0 <= i < pending.len() ==> 0 <= (#[trigger] pending[i]).index < regions.len()
                && pending[i].region == regions[pending[i].index],
    ensures
        forall|i: int|
            0 <= i < sweep_from(regions, pos, pending).len() ==> {
                let e = #[trigger] sweep_from(regions, pos, pending)[i];
                0 <= e.index < regions.len() && e.region == regions[e.index]
            },
    decreases 2 * regions.len() - 2 * pos + pending.len(),
{
    if pending.len() > 0 {
        lemma_min_idx(pending);
    }
    let out = sweep_from(regions, pos, pending);
    if pos < regions.len() {
        let r = regions[pos];
        if pending.len() > 0 && pend_before(pending[min_idx(pending)], r.chrom, r.begin) {
            lemma_sweep_from_origins(regions, pos, pending.remove(min_idx(pending)));
            let rest = sweep_from(regions, pos, pending.remove(min_idx(pending)));
            assert(forall|i: int| 1 <= i < out.len() ==> out[i] == rest[i - 1]);
        } else {
            let p = PendingModel { index: pos, region: r };
            lemma_sweep_from_origins(regions, pos + 1, pending.push(p));
            let rest = sweep_from(regions, pos + 1, pending.push(p));
            assert(forall|i: int| 1 <= i < out.len() ==> out[i] == rest[i - 1]);
        }
    } else if pending.len() > 0 {
        lemma_sweep_from_origins(regions, pos, pending.remove(min_idx(pending)));
        let rest = sweep_from(regions, pos, pending.remove(min_idx(pending)));
        assert(forall|i: int| 1 <= i < out.len() ==> out[i] == rest[i - 1]);
    }
}

/// Origin law: every emitted event names an upstream position and retains
/// exactly the region that stands there.
pub proof fn lemma_origin_law(regions: Seq<RegionModel>)
    ensures
        forall|i: int|
            0 <= i < sweep_seq(regions).len() ==> {
                let e = #[trigger] sweep_seq(regions)[i];
                0 <= e.index < regions.len() && e.region == regions[e.index]
            },
{
    lemma_sweep_from_origins(regions, 0, Seq::empty());
}

/// Count law: a sweep over `n` upstream regions emits exactly `2 * n`
/// events.
pub proof fn lemma_count_law(regions: Seq<RegionModel>)
    ensures
        sweep_seq(regions).len() == 2 * regions.len(),
{
    lemma_sweep_from_len(regions, 0, Seq::empty());
}

/// Pairing law: each origin index has exactly one open and one close event,
/// and the open event precedes the close event in emission order.
pub proof fn lemma_pairing_law(regions: Seq<RegionModel>, k: int)
    requires
        0 <= k < regions.len(),
    ensures
        count_open(sweep_seq(regions), k) == 1,
        count_close(sweep_seq(regions), k) == 1,
        exists|i: int, j: int|
            {
                &&& 0 <= i < j < sweep_seq(regions).len()
                &&& (#[trigger] sweep_seq(regions)[i]).is_open
                &&& sweep_seq(regions)[i].index == k
                &&& !(#[trigger] sweep_seq(regions)[j]).is_open
                &&& sweep_seq(regions)[j].index == k
            },
{
    lemma_sweep_from_counts(regions, 0, Seq::empty(), k);
    lemma_sweep_from_precedes(regions, 0, Seq::empty(), k);
    let out = sweep_from(regions, 0, Seq::empty());
    assert(sweep_seq(regions) == out);
    let (i0, j0) = choose|i: int, j: int|
        {
            &&& 0 <= i < j < out.len()
            &&& (#[trigger] out[i]).is_open
            &&& out[i].index == k
            &&& !(#[trigger] out[j]).is_open
            &&& out[j].index == k
        };
    assert(0 <= i0 < j0 < sweep_seq(regions).len() && sweep_seq(regions)[i0].is_open && sweep_seq(
        regions,
    )[i0].index == k && !sweep_seq(regions)[j0].is_open && sweep_seq(regions)[j0].index == k);
}

/// Depth non-negativity: every emitted depth is at least zero.
pub proof fn lemma_depth_law(regions: Seq<RegionModel>)
    ensures
        forall|i: int|
            0 <= i < sweep_seq(regions).len() ==> (#[trigger] sweep_seq(regions)[i]).depth >= 0,
{
    lemma_sweep_from_depths(regions, 0, Seq::empty());
}

/// Empty input: sweeping an empty sequence yields an empty sequence.
pub proof fn lemma_empty_law(regions: Seq<RegionModel>)
    requires
        regions.len() == 0,
    ensures
        sweep_seq(regions) == Seq::<EventModel>::empty(),
{
}

/// Determinism: the event sequence is a function of the upstream sequence
/// alone, so equal inputs sweep to equal outputs.
pub proof fn lemma_determinism_law(a: Seq<RegionModel>, b: Seq<RegionModel>)
    requires
        a == b,
    ensures
        sweep_seq(a) == sweep_seq(b),
{
}

} // verus!
