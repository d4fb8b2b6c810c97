//! The merge-sweep engine: interleaves the upstream interval sequence with
//! the set of pending close boundaries into one ordered event sequence, and
//! assigns each event its overlap depth at the moment of emission.

use vstd::prelude::*;

use crate::point::{EventModel, Point};
use crate::region::{pos_lt, RegionModel, WithRegion};

verus! {

/// A not-yet-closed interval waiting in the pending set: the identity of its
/// source region and the region itself (its close boundary is at `end`).
pub ghost struct PendingModel {
    pub index: int,
    pub region: RegionModel,
}

/// Strict order on pending close boundaries: by sequence name, then by end
/// coordinate.
pub open spec fn pend_lt(a: PendingModel, b: PendingModel) -> bool {
    pos_lt(a.region.chrom, a.region.end, b.region.chrom, b.region.end)
}

/// Whether the pending close boundary `p` lies strictly before the position
/// `(chrom, coord)`.
pub open spec fn pend_before(p: PendingModel, chrom: Seq<char>, coord: u32) -> bool {
    pos_lt(p.region.chrom, p.region.end, chrom, coord)
}

/// The position of the earliest pending close boundary; on ties, the one
/// that entered the pending set first.
pub open spec fn min_idx(s: Seq<PendingModel>) -> int
    decreases s.len(),
{
    if s.len() <= 1 {
        0
    } else {
        let m = min_idx(s.drop_last());
        if pend_lt(s.last(), s[m]) {
            s.len() - 1
        } else {
            m
        }
    }
}

/// The chosen pending index is in range and no other pending boundary lies
/// strictly before it.
pub proof fn lemma_min_idx(s: Seq<PendingModel>)
    requires
        s.len() > 0,
    ensures
        0 <= min_idx(s) < s.len(),
        forall|j: int| 0 <= j < s.len() ==> !pend_lt(s[j], s[min_idx(s)]),
    decreases s.len(),
{
    if s.len() <= 1 {
        crate::region::lemma_lex_lt_irrefl(s[0].region.chrom);
    } else {
        let rest = s.drop_last();
        let m = min_idx(rest);
        lemma_min_idx(rest);
        assert forall|j: int| 0 <= j < s.len() implies !pend_lt(s[j], s[min_idx(s)]) by {
            if pend_lt(s.last(), s[m]) {
                assert(min_idx(s) == s.len() - 1);
                if j == s.len() - 1 {
                    crate::region::lemma_lex_lt_irrefl(s.last().region.chrom);
                } else {
                    assert(!pend_lt(rest[j], rest[m]));
                    assert(rest[j] == s[j]);
                    assert(rest[m] == s[m]);
                    if pend_lt(s[j], s.last()) {
                        crate::region::lemma_pos_lt_trans(
                            s[j].region.chrom,
                            s[j].region.end,
                            s.last().region.chrom,
                            s.last().region.end,
                            s[m].region.chrom,
                            s[m].region.end,
                        );
                    }
                }
            } else {
                assert(min_idx(s) == m);
                if j < s.len() - 1 {
                    assert(!pend_lt(rest[j], rest[m]));
                    assert(rest[j] == s[j]);
                    assert(rest[m] == s[m]);
                }
            }
        }
    }
}

/// An open event for the region at `idx`, emitted with the given depth.
pub open spec fn open_event(idx: int, r: RegionModel, depth: int) -> EventModel {
    EventModel { is_open: true, index: idx, depth, region: r }
}

/// The close event of a pending entry, emitted with the given depth.
pub open spec fn close_event(p: PendingModel, depth: int) -> EventModel {
    EventModel { is_open: false, index: p.index, depth, region: p.region }
}

/// The event sequence the engine still has to emit, from a state where the
/// regions before `pos` are already open or closed and `pending` holds the
/// not-yet-closed ones.
///
/// Each step either flushes the earliest pending close — only when it lies
/// strictly before the next region's begin — or opens the next region.  A
/// close's depth is the number of intervals still open after it closes; an
/// open's depth is the number open including the interval itself.
pub open spec fn sweep_from(
    regions: Seq<RegionModel>,
    pos: int,
    pending: Seq<PendingModel>,
) -> Seq<EventModel>
    decreases 2 * regions.len() - 2 * pos + pending.len(),
        when 0 <= pos <= regions.len()
        via sweep_from_decreases
{
    if pos < regions.len() {
        let r = regions[pos];
        if pending.len() > 0 && pend_before(pending[min_idx(pending)], r.chrom, r.begin) {
            let m = min_idx(pending);
            seq![close_event(pending[m], pending.len() - 1)] + sweep_from(
                regions,
                pos,
                pending.remove(m),
            )
        } else {
            seq![open_event(pos, r, pending.len() + 1 as int)] + sweep_from(
                regions,
                pos + 1,
                pending.push(PendingModel { index: pos, region: r }),
            )
        }
    } else if pending.len() > 0 {
        let m = min_idx(pending);
        seq![close_event(pending[m], pending.len() - 1)] + sweep_from(
            regions,
            pos,
            pending.remove(m),
        )
    } else {
        Seq::empty()
    }
}

#[via_fn]
proof fn sweep_from_decreases(
    regions: Seq<RegionModel>,
    pos: int,
    pending: Seq<PendingModel>,
) {
    if pending.len() > 0 {
        lemma_min_idx(pending);
    }
}

/// The whole event sequence of a sweep over `regions`.
pub open spec fn sweep_seq(regions: Seq<RegionModel>) -> Seq<EventModel> {
    sweep_from(regions, 0, Seq::empty())
}

/// The regions a sequence of sweepable values stands for.
pub open spec fn models<T: WithRegion>(s: Seq<T>) -> Seq<RegionModel> {
    s.map_values(|t: T| t.model())
}

/// The pending entry a retained close point stands for.
pub open spec fn pend_of<T: WithRegion>(p: Point<T>) -> PendingModel {
    PendingModel { index: p.index as int, region: p.value.model() }
}

/// The pending entries a sequence of retained close points stands for.
pub open spec fn pending_models<T: WithRegion>(s: Seq<Point<T>>) -> Seq<PendingModel> {
    s.map_values(|p: Point<T>| pend_of(p))
}

/// Whether the close boundary of `a` lies strictly before that of `b`.
fn close_lt<T: WithRegion>(a: &Point<T>, b: &Point<T>) -> (r: bool)
    ensures
        r == pend_lt(pend_of(*a), pend_of(*b)),
{
    match crate::region::str_cmp(a.value.chrom(), b.value.chrom()) {
        core::cmp::Ordering::Less => true,
        core::cmp::Ordering::Greater => false,
        core::cmp::Ordering::Equal => a.value.end() < b.value.end(),
    }
}

/// Whether the close boundary of `p` lies strictly before the position
/// `(next_chrom, next_begin)`.
fn close_before<T: WithRegion>(p: &Point<T>, next_chrom: &str, next_begin: u32) -> (r: bool)
    ensures
        r == pend_before(pend_of(*p), next_chrom@, next_begin),
{
    match crate::region::str_cmp(p.value.chrom(), next_chrom) {
        core::cmp::Ordering::Less => true,
        core::cmp::Ordering::Greater => false,
        core::cmp::Ordering::Equal => p.value.end() < next_begin,
    }
}

/// The position of the earliest pending close point, ties going to the one
/// that entered first.
fn min_pending_index<T: WithRegion>(pending: &Vec<Point<T>>) -> (m: usize)
    requires
        pending@.len() > 0,
    ensures
        m < pending@.len(),
        m as int == min_idx(pending_models(pending@)),
{
    let ghost pm = pending_models(pending@);
    let mut best: usize = 0;
    let mut i: usize = 1;
    proof {
        assert(pm.take(1).len() == 1);
    }
    while i < pending.len()
        invariant
            1 <= i <= pending@.len(),
            best < i,
            pm == pending_models(pending@),
            best as int == min_idx(pm.take(i as int)),
        decreases pending@.len() - i,
    {
        let c = close_lt(&pending[i], &pending[best]);
        proof {
            lemma_min_idx(pm.take(i as int));
            assert(pm.take(i as int + 1).drop_last() =~= pm.take(i as int));
            assert(pm.take(i as int + 1).last() == pend_of(pending@[i as int]));
            assert(pm.take(i as int)[best as int] == pend_of(pending@[best as int]));
        }
        if c {
            best = i;
        }
        i = i + 1;
    }
    proof {
        assert(pm.take(pending@.len() as int) =~= pm);
    }
    best
}

/// The sweep engine: holds the upstream regions, a cursor marking the next
/// not-yet-opened one, and the pending set of not-yet-closed boundaries.
///
/// Each call of [`ComponentsIter::next`] emits one event; the engine is
/// drained once the cursor reaches the end and the pending set is empty.
pub struct ComponentsIter<T: WithRegion> {
    regions: Vec<T>,
    pos: usize,
    pending: Vec<Point<T>>,
}

impl<T: WithRegion> ComponentsIter<T> {
    /// The regions the engine sweeps, in upstream order.
    pub closed spec fn upstream(&self) -> Seq<RegionModel> {
        models(self.regions@)
    }

    /// How many upstream regions have been opened so far.
    pub closed spec fn cursor(&self) -> int {
        self.pos as int
    }

    /// The not-yet-closed boundaries, in the order they entered.
    pub closed spec fn pending_view(&self) -> Seq<PendingModel> {
        pending_models(self.pending@)
    }

    /// Well-formedness: the cursor is within the upstream sequence and the
    /// pending set holds close boundaries only.
    pub closed spec fn wf(&self) -> bool {
        &&& 0 <= self.cursor() <= self.upstream().len()
        &&& forall|i: int| 0 <= i < self.pending@.len() ==> !(#[trigger] self.pending@[i]).is_open
    }

    /// The events the engine still has to emit.
    pub open spec fn events(&self) -> Seq<EventModel> {
        sweep_from(self.upstream(), self.cursor(), self.pending_view())
    }

    /// Emits the next boundary event, or `None` once the sweep is drained.
    ///
    /// The head of the outstanding event sequence is returned and removed:
    /// either the earliest pending close — when it lies strictly before the
    /// next region's begin — or the opening of the next region.
    pub fn next(&mut self) -> (r: Option<Point<T>>)
        requires
            old(self).wf(),
        ensures
            final(self).wf(),
            final(self).upstream() == old(self).upstream(),
            match r {
                Option::Some(p) => old(self).events().len() > 0 && p.model() == old(
                    self,
                ).events()[0] && final(self).events() == old(self).events().drop_first(),
                Option::None => old(self).events().len() == 0 && final(self).events() == old(
                    self,
                ).events(),
            },
    {
        let ghost u = old(self).upstream();
        let ghost k = old(self).cursor();
        let ghost pp = old(self).pending_view();
        if self.pos < self.regions.len() {
            let mut flush = false;
            let mut m: usize = 0;
            if self.pending.len() > 0 {
                m = min_pending_index(&self.pending);
                let la = &self.regions[self.pos];
                flush = close_before(&self.pending[m], la.chrom(), la.begin());
            }
            if flush {
                let depth = self.pending.len() - 1;
                let mut p = self.pending.remove(m);
                p.depth = depth;
                proof {
                    assert(pending_models(self.pending@) =~= pp.remove(m as int));
                    assert(self.events() =~= old(self).events().drop_first());
                }
                Some(p)
            } else {
                let idx = self.pos;
                let closer = Point {
                    is_open: false,
                    index: idx,
                    depth: 0,
                    value: self.regions[idx].dup(),
                };
                self.pending.push(closer);
                let depth = self.pending.len();
                let opener = Point {
                    is_open: true,
                    index: idx,
                    depth,
                    value: self.regions[idx].dup(),
                };
                self.pos = idx + 1;
                proof {
                    assert(pending_models(self.pending@) =~= pp.push(
                        PendingModel { index: k, region: u[k] },
                    ));
                    assert(self.events() =~= old(self).events().drop_first());
                }
                Some(opener)
            }
        } else {
            if self.pending.len() > 0 {
                let m = min_pending_index(&self.pending);
                let depth = self.pending.len() - 1;
                let mut p = self.pending.remove(m);
                p.depth = depth;
                proof {
                    assert(pending_models(self.pending@) =~= pp.remove(m as int));
                    assert(self.events() =~= old(self).events().drop_first());
                }
                Some(p)
            } else {
                None
            }
        }
    }
}

/// The capability of producing sweep events from an ordered collection of
/// regions.
pub trait Components<T: WithRegion>: Sized {
    /// The regions the collection holds, in upstream order.
    spec fn upstream_model(&self) -> Seq<RegionModel>;

    /// A sweep engine over this collection, with nothing emitted yet.
    fn components(self) -> (r: ComponentsIter<T>)
        ensures
            r.wf(),
            r.upstream() == self.upstream_model(),
            r.events() == sweep_seq(self.upstream_model()),
    ;
}

impl<T: WithRegion> Components<T> for Vec<T> {
    open spec fn upstream_model(&self) -> Seq<RegionModel> {
        models(self@)
    }

    fn components(self) -> (r: ComponentsIter<T>) {
        let r = ComponentsIter { regions: self, pos: 0, pending: Vec::new() };
        proof {
            assert(pending_models(r.pending@) =~= Seq::<PendingModel>::empty());
        }
        r
    }
}

} // verus!
