use vstd::prelude::*;
use crate::sample::{samples_view, sns_of, Sample, SampleView};

verus! {

/// The largest number of samples that one source may hold back waiting for a gap
/// to be filled.
pub const PENDING_LIMIT: usize = 65536;

/// Failed repair rounds after which a gap is given up as lost.
pub const REPAIR_ATTEMPTS: u32 = 3;

/// The samples `p` are ordered by strictly increasing sequence number, all at
/// least `lo` and below the largest 64-bit value.
pub open spec fn ordered_from(p: Seq<SampleView>, lo: int) -> bool {
    &&& forall|i: int| 0 <= i < p.len() ==> lo <= (#[trigger] p[i]).source_sn < u64::MAX
    &&& forall|i: int, j: int| 0 <= i < j < p.len() ==> (#[trigger] p[i]).source_sn < (#[trigger] p[j]).source_sn
}

/// The samples held back are ordered by strictly increasing sequence number, all
/// beyond `next` and below the largest 64-bit value.
pub open spec fn pending_ordered(p: Seq<SampleView>, next: u64) -> bool {
    ordered_from(p, next + 1)
}

/// How many leading samples of `p` carry the numbers `start, start + 1, ...`.
pub open spec fn run_len(p: Seq<SampleView>, start: int) -> nat
    decreases p.len(),
{
    if p.len() == 0 || p[0].source_sn != start {
        0
    } else {
        1 + run_len(p.drop_first(), start + 1)
    }
}

/// Where a sample numbered `sn` goes among the samples held back: before the
/// first one whose number is not below `sn`.
pub open spec fn pending_pos(p: Seq<SampleView>, sn: u64) -> nat
    decreases p.len(),
{
    if p.len() == 0 || p[0].source_sn >= sn {
        0
    } else {
        1 + pending_pos(p.drop_first(), sn)
    }
}

/// The numbers delivered so far are strictly increasing and all below `next`.
pub open spec fn delivered_ordered(d: Seq<u64>, next: u64) -> bool {
    &&& forall|i: int| 0 <= i < d.len() ==> #[trigger] d[i] < next
    &&& forall|i: int, j: int| 0 <= i < j < d.len() ==> #[trigger] d[i] < #[trigger] d[j]
}

/// What the tracker asks of its owner after an event.
pub struct Outcome {
    /// Samples to hand to the application, in order.
    pub delivered: Vec<Sample>,
    /// Ask the source's cache for every sample numbered from this one on.
    pub repair_from: Option<u64>,
    /// Numbers given up as lost: from the first up to, not including, the second.
    pub lost: Option<(u64, u64)>,
}

/// Per-source view of a reliable subscriber: the next number that may be
/// delivered, the samples held back beyond a gap, and the repair in flight.
pub struct SourceState {
    next_expected: u64,
    pending: Vec<Sample>,
    query_outstanding: bool,
    failed_repairs: u32,
    next_at_query: u64,
    next_at_tick: u64,
    delivered: Ghost<Seq<u64>>,
}

proof fn lemma_run_len_step(p: Seq<SampleView>, start: int)
    requires
        p.len() > 0,
        p[0].source_sn == start,
    ensures
        run_len(p, start) == 1 + run_len(p.drop_first(), start + 1),
{
}

proof fn lemma_pending_pos(p: Seq<SampleView>, sn: u64, j: int)
    requires
        0 <= j <= p.len(),
        forall|i: int| 0 <= i < j ==> (#[trigger] p[i]).source_sn < sn,
        j == p.len() || p[j].source_sn >= sn,
    ensures
        pending_pos(p, sn) == j,
    decreases j,
{
    if j > 0 {
        assert(p[0].source_sn < sn);
        assert forall|i: int| 0 <= i < j - 1 implies (#[trigger] p.drop_first()[i]).source_sn < sn by {
            assert(p[i + 1].source_sn < sn);
        }
        lemma_pending_pos(p.drop_first(), sn, j - 1);
    }
}

/// One step of a source's tracker on the sample `s`: `old` before, `new` after,
/// `r` what the owner is asked to do.
pub open spec fn sample_step(old: SourceState, s: SampleView, new: SourceState, r: Outcome) -> bool {
    &&& new.wf()
    &&& new.spec_failed_repairs() == old.spec_failed_repairs()
    &&& new.spec_next_at_tick() == old.spec_next_at_tick()
    &&& new.spec_next_at_query() == (match r.repair_from {
        Some(x) => x,
        None => old.spec_next_at_query(),
    })
    &&& r.lost is None
    &&& new.spec_delivered() == old.spec_delivered() + sns_of(samples_view(r.delivered@))
    &&& ({
        let sn = s.source_sn;
        let n = old.spec_next();
        let p = old.spec_pending();
        let i = pending_pos(p, sn);
        if sn < n || sn == u64::MAX || (i < p.len() && p[i as int].source_sn == sn) {
            &&& r.delivered@.len() == 0
            &&& r.repair_from is None
            &&& new.spec_next() == n
            &&& new.spec_pending() == p
            &&& new.spec_outstanding() == old.spec_outstanding()
        } else if sn == n {
            let m = run_len(p, n + 1);
            &&& samples_view(r.delivered@) == seq![s] + p.take(m as int)
            &&& r.repair_from is None
            &&& new.spec_next() == n + 1 + m
            &&& new.spec_pending() == p.skip(m as int)
            &&& new.spec_outstanding() == old.spec_outstanding()
        } else if p.len() >= PENDING_LIMIT {
            &&& r.delivered@.len() == 0
            &&& r.repair_from == Some(n)
            &&& new.spec_next() == n
            &&& new.spec_pending() == seq![s]
            &&& new.spec_outstanding()
        } else {
            &&& r.delivered@.len() == 0
            &&& r.repair_from == (if old.spec_outstanding() { None } else { Some(n) })
            &&& new.spec_next() == n
            &&& new.spec_pending() == p.insert(i as int, s)
            &&& new.spec_outstanding()
        }
    })
}

/// The end of a repair in flight: `old` before, `new` after, `r` what the owner
/// is asked to do.
pub open spec fn query_done_step(old: SourceState, new: SourceState, r: Outcome) -> bool {
    &&& new.wf()
    &&& new.spec_next_at_tick() == old.spec_next_at_tick()
    &&& new.spec_next_at_query() == (match r.repair_from {
        Some(x) => x,
        None => old.spec_next_at_query(),
    })
    &&& new.spec_failed_repairs() == (if old.spec_pending().len() > 0 && !old.spec_gives_up()
        && old.spec_next() == old.spec_next_at_query() {
        (old.spec_failed_repairs() + 1) as u32
    } else {
        0u32
    })
    &&& new.spec_delivered() == old.spec_delivered() + sns_of(samples_view(r.delivered@))
    &&& ({
        let n = old.spec_next();
        let p = old.spec_pending();
        if p.len() == 0 {
            &&& r.delivered@.len() == 0
            &&& r.repair_from is None
            &&& r.lost is None
            &&& new.spec_next() == n
            &&& new.spec_pending() == p
            &&& !new.spec_outstanding()
        } else if old.spec_gives_up() {
            let first = p[0].source_sn;
            let m = run_len(p, first as int);
            &&& samples_view(r.delivered@) == p.take(m as int)
            &&& r.lost == Some((n, first))
            &&& new.spec_next() == first + m
            &&& new.spec_pending() == p.skip(m as int)
            &&& r.repair_from == (if m < p.len() { Some(new.spec_next()) } else { None })
            &&& new.spec_outstanding() == (m < p.len())
        } else {
            &&& r.delivered@.len() == 0
            &&& r.repair_from == Some(n)
            &&& r.lost is None
            &&& new.spec_next() == n
            &&& new.spec_pending() == p
            &&& new.spec_outstanding()
        }
    })
}

/// A periodic scan with `silent` telling whether the source has gone quiet:
/// `old` before, `new` after, `r` where a repair should start, if one is due.
pub open spec fn tick_step(old: SourceState, silent: bool, new: SourceState, r: Option<u64>) -> bool {
    &&& new.wf()
    &&& new.spec_failed_repairs() == old.spec_failed_repairs()
    &&& new.spec_next_at_tick() == old.spec_next()
    &&& new.spec_next_at_query() == (match r {
        Some(x) => x,
        None => old.spec_next_at_query(),
    })
    &&& new.spec_next() == old.spec_next()
    &&& new.spec_pending() == old.spec_pending()
    &&& new.spec_delivered() == old.spec_delivered()
    &&& new.spec_stalled()
    &&& ({
        let ask = !old.spec_outstanding() && old.spec_stalled() && (
        old.spec_pending().len() > 0 || silent);
        &&& r == (if ask { Some(old.spec_next()) } else { None })
        &&& new.spec_outstanding() == (old.spec_outstanding() || ask)
    })
}

impl SourceState {
    pub closed spec fn spec_next(&self) -> u64 {
        self.next_expected
    }

    pub closed spec fn spec_pending(&self) -> Seq<SampleView> {
        samples_view(self.pending@)
    }

    pub closed spec fn spec_outstanding(&self) -> bool {
        self.query_outstanding
    }

    /// The numbers of every sample delivered from this source so far, in order.
    pub closed spec fn spec_delivered(&self) -> Seq<u64> {
        self.delivered@
    }

    pub closed spec fn wf(&self) -> bool {
        &&& pending_ordered(samples_view(self.pending@), self.next_expected)
        &&& self.pending@.len() <= PENDING_LIMIT
        &&& delivered_ordered(self.delivered@, self.next_expected)
        &&& self.failed_repairs < REPAIR_ATTEMPTS
    }

    /// A source whose first sample to deliver is numbered `first`.
    pub fn new(first: u64) -> (r: SourceState)
        ensures
            r.wf(),
            r.spec_next() == first,
            r.spec_pending() == Seq::<SampleView>::empty(),
            !r.spec_outstanding(),
            r.spec_delivered() == Seq::<u64>::empty(),
            r.spec_failed_repairs() == 0,
            r.spec_next_at_query() == first,
            r.spec_next_at_tick() == first,
    {
        let r = SourceState {
            next_expected: first,
            pending: Vec::new(),
            query_outstanding: false,
            failed_repairs: 0,
            next_at_query: first,
            next_at_tick: first,
            delivered: Ghost(Seq::empty()),
        };
        assert(r.spec_pending() =~= Seq::<SampleView>::empty());
        r
    }

    pub fn next_expected(&self) -> (r: u64)
        ensures
            r == self.spec_next(),
    {
        self.next_expected
    }

    pub fn pending_len(&self) -> (r: usize)
        ensures
            r == self.spec_pending().len(),
    {
        self.pending.len()
    }

    /// Moves the samples held back that continue the delivered sequence into
    /// `out`, advancing the next expected number past them.
    fn drain(&mut self, out: &mut Vec<Sample>)
        requires
            ordered_from(old(self).spec_pending(), old(self).spec_next() as int),
            old(self).pending@.len() <= PENDING_LIMIT,
            delivered_ordered(old(self).delivered@, old(self).next_expected),
            old(self).failed_repairs < REPAIR_ATTEMPTS,
        ensures
            final(self).wf(),
            ({
                let n = run_len(old(self).spec_pending(), old(self).spec_next() as int);
                &&& n <= old(self).spec_pending().len()
                &&& samples_view(final(out)@) == samples_view(old(out)@) + old(self).spec_pending().take(n as int)
                &&& final(self).spec_pending() == old(self).spec_pending().skip(n as int)
                &&& final(self).spec_next() == old(self).spec_next() + n
                &&& final(self).spec_delivered() == old(self).spec_delivered() + sns_of(
                    old(self).spec_pending().take(n as int),
                )
            }),
            final(self).query_outstanding == old(self).query_outstanding,
            final(self).failed_repairs == old(self).failed_repairs,
            final(self).next_at_query == old(self).next_at_query,
            final(self).next_at_tick == old(self).next_at_tick,
    {
        let ghost p0 = samples_view(self.pending@);
        let ghost n0 = self.next_expected;
        let ghost out0 = samples_view(out@);
        let ghost d0 = self.delivered@;
        let ghost k: int = 0;
        proof {
            assert(p0.skip(0) =~= p0);
            assert(p0.take(0) =~= Seq::<SampleView>::empty());
            assert(out0 + p0.take(0) =~= out0);
            assert(sns_of(p0.take(0)) =~= Seq::<u64>::empty());
            assert(d0 + sns_of(p0.take(0)) =~= d0);
        }
        while self.pending.len() > 0 && self.pending[0].source_sn == self.next_expected
            invariant
                0 <= k <= p0.len(),
                samples_view(self.pending@) == p0.skip(k),
                self.next_expected == n0 + k,
                samples_view(out@) == out0 + p0.take(k),
                self.delivered@ == d0 + sns_of(p0.take(k)),
                run_len(p0, n0 as int) == k + run_len(p0.skip(k), n0 + k),
                ordered_from(samples_view(self.pending@), self.next_expected as int),
                self.pending@.len() <= PENDING_LIMIT,
                delivered_ordered(self.delivered@, self.next_expected),
                self.query_outstanding == old(self).query_outstanding,
                self.failed_repairs == old(self).failed_repairs,
                self.next_at_query == old(self).next_at_query,
                self.next_at_tick == old(self).next_at_tick,
                n0 == old(self).next_expected,
                p0 == samples_view(old(self).pending@),
            decreases self.pending@.len(),
        {
            let ghost pv = samples_view(self.pending@);
            let ghost ov = samples_view(out@);
            let ghost dv = self.delivered@;
            let x = self.pending.remove(0);
            let sn = x.source_sn;
            proof {
                assert(pv[0] == x@);
                assert(pv[0] == p0[k]);
                lemma_run_len_step(pv, n0 + k);
                assert(pv.drop_first() =~= p0.skip(k + 1));
                assert(samples_view(self.pending@) =~= pv.drop_first());
            }
            out.push(x);
            self.delivered = Ghost(self.delivered@.push(sn));
            self.next_expected = sn + 1;
            proof {
                assert(p0.take(k + 1) =~= p0.take(k).push(p0[k]));
                assert(samples_view(out@) =~= ov.push(x@));
                assert(sns_of(p0.take(k + 1)) =~= sns_of(p0.take(k)).push(sn));
                k = k + 1;
                let np = samples_view(self.pending@);
                assert forall|i: int| 0 <= i < np.len() implies self.next_expected <= (#[trigger] np[i]).source_sn
                    < u64::MAX by {
                    assert(np[i] == pv[i + 1]);
                    assert(pv[0].source_sn < pv[i + 1].source_sn);
                }
                assert forall|i: int, j: int| 0 <= i < j < np.len() implies (#[trigger] np[i]).source_sn
                    < (#[trigger] np[j]).source_sn by {
                    assert(np[i] == pv[i + 1] && np[j] == pv[j + 1]);
                }
            }
        }
        proof {
            let pv = samples_view(self.pending@);
            if pv.len() > 0 {
                assert(pv[0].source_sn != self.next_expected);
                assert forall|i: int| 0 <= i < pv.len() implies self.next_expected < (#[trigger] pv[i]).source_sn by {
                    if i > 0 {
                        assert(pv[0].source_sn < pv[i].source_sn);
                    }
                }
            }
            assert(run_len(pv, self.next_expected as int) == 0);
        }
    }

    /// Finds where a sample numbered `sn` goes among the samples held back.
    fn position(&self, sn: u64) -> (r: usize)
        ensures
            r == pending_pos(self.spec_pending(), sn),
            r <= self.spec_pending().len(),
            forall|i: int| 0 <= i < r ==> (#[trigger] self.spec_pending()[i]).source_sn < sn,
            r < self.spec_pending().len() ==> self.spec_pending()[r as int].source_sn >= sn,
    {
        let ghost p = self.spec_pending();
        let mut i: usize = 0;
        while i < self.pending.len() && self.pending[i].source_sn < sn
            invariant
                p == self.spec_pending(),
                i <= self.pending@.len(),
                forall|j: int| 0 <= j < i ==> (#[trigger] p[j]).source_sn < sn,
            decreases self.pending@.len() - i,
        {
            i = i + 1;
        }
        proof {
            lemma_pending_pos(p, sn, i as int);
        }
        i
    }

    /// Handles a sample of this source, live or from a repair reply. A sample
    /// below the next expected number is a duplicate and is dropped. The next
    /// expected one is delivered together with the held-back samples that follow
    /// it without a gap. A later one is held back, and a repair from the next
    /// expected number is asked for unless one is already in flight; when too many
    /// are held back, they are dropped and a fresh repair is asked for.
    pub fn on_sample(&mut self, s: Sample) -> (r: Outcome)
        requires
            old(self).wf(),
        ensures
            sample_step(*old(self), s@, *final(self), r),
    {
        let sn = s.source_sn;
        let mut out: Vec<Sample> = Vec::new();
        proof {
            assert(sns_of(samples_view(out@)) =~= Seq::<u64>::empty());
            assert(self.delivered@ + Seq::<u64>::empty() =~= self.delivered@);
        }
        if sn < self.next_expected || sn == u64::MAX {
            return Outcome { delivered: out, repair_from: None, lost: None };
        }
        if sn == self.next_expected {
            let ghost sv = s@;
            let ghost d0 = self.delivered@;
            out.push(s);
            self.delivered = Ghost(self.delivered@.push(sn));
            self.next_expected = sn + 1;
            proof {
                assert(samples_view(out@) =~= seq![sv]);
                let p = samples_view(self.pending@);
                assert(ordered_from(p, self.next_expected as int));
            }
            let ghost out1 = samples_view(out@);
            self.drain(&mut out);
            proof {
                let p = samples_view(old(self).pending@);
                let m = run_len(p, sn + 1);
                assert(sns_of(samples_view(out@)) =~= seq![sn] + sns_of(p.take(m as int)));
                assert(self.delivered@ =~= d0 + sns_of(samples_view(out@)));
            }
            return Outcome { delivered: out, repair_from: None, lost: None };
        }
        let i = self.position(sn);
        if i < self.pending.len() && self.pending[i].source_sn == sn {
            return Outcome { delivered: out, repair_from: None, lost: None };
        }
        if self.pending.len() >= PENDING_LIMIT {
            let ghost sv = s@;
            let mut fresh: Vec<Sample> = Vec::new();
            fresh.push(s);
            self.pending = fresh;
            self.query_outstanding = true;
            self.next_at_query = self.next_expected;
            proof {
                assert(samples_view(self.pending@) =~= seq![sv]);
            }
            return Outcome { delivered: out, repair_from: Some(self.next_expected), lost: None };
        }
        let ghost p = samples_view(self.pending@);
        let ghost sv = s@;
        self.pending.insert(i, s);
        proof {
            let np = samples_view(self.pending@);
            assert(np =~= p.insert(i as int, sv));
            assert forall|a: int, b: int| 0 <= a < b < np.len() implies (#[trigger] np[a]).source_sn
                < (#[trigger] np[b]).source_sn by {
                if b < i {
                } else if b == i {
                    assert(np[a] == p[a]);
                } else if a < i {
                    assert(np[b] == p[b - 1]);
                } else if a == i {
                    assert(np[b] == p[b - 1]);
                    assert(p[i as int].source_sn >= sn);
                    if b - 1 > i {
                        assert(p[i as int].source_sn < p[b - 1].source_sn);
                    }
                } else {
                    assert(np[a] == p[a - 1] && np[b] == p[b - 1]);
                }
            }
        }
        let repair = if self.query_outstanding {
            None
        } else {
            self.query_outstanding = true;
            self.next_at_query = self.next_expected;
            Some(self.next_expected)
        };
        Outcome { delivered: out, repair_from: repair, lost: None }
    }

    /// Repairs in a row that filled nothing of the current gap.
    pub closed spec fn spec_failed_repairs(&self) -> u32 {
        self.failed_repairs
    }

    /// The next expected number when the last repair was asked for.
    pub closed spec fn spec_next_at_query(&self) -> u64 {
        self.next_at_query
    }

    /// The next expected number at the previous periodic scan.
    pub closed spec fn spec_next_at_tick(&self) -> u64 {
        self.next_at_tick
    }

    /// Whether the repair now ending is the last one allowed for the current gap:
    /// it filled nothing, and the ones before it filled nothing either.
    pub open spec fn spec_gives_up(&self) -> bool {
        self.spec_next() == self.spec_next_at_query() && self.spec_failed_repairs() + 1 >= REPAIR_ATTEMPTS
    }

    /// Whether delivery has not moved since the previous periodic scan.
    pub open spec fn spec_stalled(&self) -> bool {
        self.spec_next() == self.spec_next_at_tick()
    }

    /// Handles the end of the repair in flight (all replies in, or timed out). With
    /// nothing held back there is nothing to repair. When repairs keep filling
    /// nothing, the gap is given up as lost: delivery resumes at the first
    /// held-back sample. Otherwise another repair is asked for.
    pub fn on_query_done(&mut self) -> (r: Outcome)
        requires
            old(self).wf(),
        ensures
            query_done_step(*old(self), *final(self), r),
    {
        let mut out: Vec<Sample> = Vec::new();
        proof {
            assert(sns_of(samples_view(out@)) =~= Seq::<u64>::empty());
            assert(self.delivered@ + Seq::<u64>::empty() =~= self.delivered@);
            assert(samples_view(out@) =~= Seq::<SampleView>::empty());
        }
        self.query_outstanding = false;
        if self.pending.len() == 0 {
            self.failed_repairs = 0;
            return Outcome { delivered: out, repair_from: None, lost: None };
        }
        if self.next_expected != self.next_at_query {
            self.failed_repairs = 0;
        } else if self.failed_repairs + 1 < REPAIR_ATTEMPTS {
            self.failed_repairs = self.failed_repairs + 1;
        } else {
            let n = self.next_expected;
            let first = self.pending[0].source_sn;
            proof {
                let p = samples_view(self.pending@);
                assert(p[0].source_sn == first);
                assert forall|i: int| 0 <= i < p.len() implies first <= (#[trigger] p[i]).source_sn by {
                    if i > 0 {
                        assert(p[0].source_sn < p[i].source_sn);
                    }
                }
            }
            self.next_expected = first;
            self.failed_repairs = 0;
            self.drain(&mut out);
            proof {
                assert(Seq::<SampleView>::empty() + samples_view(old(self).pending@).take(
                    run_len(samples_view(old(self).pending@), first as int) as int,
                ) =~= samples_view(out@));
            }
            let repair = if self.pending.len() > 0 {
                self.query_outstanding = true;
                self.next_at_query = self.next_expected;
                Some(self.next_expected)
            } else {
                None
            };
            proof {
                let p = samples_view(old(self).pending@);
                let m = run_len(p, first as int);
                assert(p.len() > 0);
                assert(old(self).spec_gives_up());
                assert(self.spec_next() == first + m);
                assert(self.spec_pending() == p.skip(m as int));
                assert(samples_view(out@) == p.take(m as int));
                lemma_run_len_prefix(p, first as int);
                assert(self.spec_pending().len() == p.len() - m);
                assert(self.spec_pending().len() == self.pending@.len());
                assert((self.pending@.len() > 0) == (m < p.len()));
            }
            return Outcome { delivered: out, repair_from: repair, lost: Some((n, first)) };
        }
        self.query_outstanding = true;
        self.next_at_query = self.next_expected;
        Outcome { delivered: out, repair_from: Some(self.next_expected), lost: None }
    }

    /// Periodic scan: when no repair is in flight and delivery has not moved since
    /// the previous scan, while samples are held back or the source has gone
    /// `silent`, asks for every sample from the next expected number on.
    pub fn on_tick(&mut self, silent: bool) -> (r: Option<u64>)
        requires
            old(self).wf(),
        ensures
            tick_step(*old(self), silent, *final(self), r),
    {
        let stalled = self.next_expected == self.next_at_tick;
        self.next_at_tick = self.next_expected;
        if !self.query_outstanding && stalled && (self.pending.len() > 0 || silent) {
            self.query_outstanding = true;
            self.next_at_query = self.next_expected;
            Some(self.next_expected)
        } else {
            None
        }
    }
}

/// The samples delivered from one source carry strictly increasing numbers: none
/// is delivered twice.
pub proof fn lemma_delivered_increasing(st: &SourceState, i: int, j: int)
    requires
        st.wf(),
        0 <= i < j < st.spec_delivered().len(),
    ensures
        st.spec_delivered()[i] < st.spec_delivered()[j],
{
}

/// The numbers `a, a + 1, ...`, `len` of them.
pub open spec fn count_from(a: int, len: nat) -> Seq<u64> {
    Seq::new(len, |t: int| (a + t) as u64)
}

/// Whether one of the samples `p` carries the number `sn`.
pub open spec fn holds_sn(p: Seq<SampleView>, sn: u64) -> bool {
    exists|i: int| 0 <= i < p.len() && (#[trigger] p[i]).source_sn == sn
}

proof fn lemma_run_len_prefix(p: Seq<SampleView>, start: int)
    ensures
        run_len(p, start) <= p.len(),
        forall|j: int| 0 <= j < run_len(p, start) ==> (#[trigger] p[j]).source_sn == start + j,
    decreases p.len(),
{
    if p.len() > 0 && p[0].source_sn == start {
        lemma_run_len_prefix(p.drop_first(), start + 1);
        assert forall|j: int| 0 <= j < run_len(p, start) implies (#[trigger] p[j]).source_sn == start + j by {
            if j > 0 {
                assert(p[j] == p.drop_first()[j - 1]);
            }
        }
    }
}

/// One tracker step delivers the numbers from the old next expected one up to,
/// not including, the new one.
proof fn lemma_step_contiguous(old: SourceState, s: SampleView, new: SourceState, r: Outcome)
    requires
        old.wf(),
        sample_step(old, s, new, r),
    ensures
        old.spec_next() <= new.spec_next(),
        sns_of(samples_view(r.delivered@)) == count_from(old.spec_next() as int, (new.spec_next() - old.spec_next()) as nat),
{
    let n = old.spec_next();
    let p = old.spec_pending();
    let sn = s.source_sn;
    let i = pending_pos(p, sn);
    let d = sns_of(samples_view(r.delivered@));
    if sn < n || sn == u64::MAX || (i < p.len() && p[i as int].source_sn == sn) {
        assert(d =~= count_from(n as int, 0));
    } else if sn == n {
        let m = run_len(p, n + 1);
        lemma_run_len_prefix(p, n + 1);
        assert(d =~= count_from(n as int, (m + 1) as nat)) by {
            assert forall|t: int| 0 <= t < m + 1 implies d[t] == (n + t) as u64 by {
                if t > 0 {
                    assert(samples_view(r.delivered@)[t] == p[t - 1]);
                }
            }
        }
    } else {
        assert(d =~= count_from(n as int, 0));
    }
}

/// A number still awaited after a step, that had arrived before it or arrives
/// with it, is held back after the step.
proof fn lemma_step_keeps_arrived(old: SourceState, s: SampleView, new: SourceState, r: Outcome, x: u64)
    requires
        old.wf(),
        sample_step(old, s, new, r),
        old.spec_pending().len() < PENDING_LIMIT,
        x == s.source_sn || holds_sn(old.spec_pending(), x),
        x >= new.spec_next(),
        x < u64::MAX,
    ensures
        holds_sn(new.spec_pending(), x),
{
    let n = old.spec_next();
    let p = old.spec_pending();
    let sn = s.source_sn;
    let i = pending_pos(p, sn);
    if sn < n || sn == u64::MAX || (i < p.len() && p[i as int].source_sn == sn) {
        if x == sn && i < p.len() && p[i as int].source_sn == sn {
            assert(p[i as int].source_sn == x);
        }
    } else if sn == n {
        let m = run_len(p, n + 1);
        lemma_run_len_prefix(p, n + 1);
        let j = choose|j: int| 0 <= j < p.len() && (#[trigger] p[j]).source_sn == x;
        assert(j >= m);
        assert(p.skip(m as int)[j - m] == p[j]);
    } else {
        lemma_pending_pos_bound(p, sn);
        let q = p.insert(i as int, s);
        if x == sn {
            assert(q[i as int] == s);
        } else {
            let j = choose|j: int| 0 <= j < p.len() && (#[trigger] p[j]).source_sn == x;
            if j < i {
                assert(q[j] == p[j]);
            } else {
                assert(q[j + 1] == p[j]);
            }
        }
    }
}

proof fn lemma_pending_pos_bound(p: Seq<SampleView>, sn: u64)
    ensures
        pending_pos(p, sn) <= p.len(),
    decreases p.len(),
{
    if p.len() > 0 && p[0].source_sn < sn {
        lemma_pending_pos_bound(p.drop_first(), sn);
    }
}

/// Whether one of the samples `inputs` carries the number `sn`.
pub open spec fn arrives(inputs: Seq<SampleView>, sn: u64) -> bool {
    exists|i: int| 0 <= i < inputs.len() && (#[trigger] inputs[i]).source_sn == sn
}

/// A run of tracker steps in which the held-back samples never reach their limit:
/// `states[k]` goes to `states[k + 1]` on `inputs[k]`, with outcome `outs[k]`.
pub open spec fn tracker_run(states: Seq<SourceState>, inputs: Seq<SampleView>, outs: Seq<Outcome>) -> bool {
    &&& states.len() == inputs.len() + 1
    &&& outs.len() == inputs.len()
    &&& states[0].wf()
    &&& forall|k: int| 0 <= k < inputs.len() ==> sample_step(
        #[trigger] states[k],
        inputs[k],
        states[k + 1],
        outs[k],
    )
    &&& forall|k: int| 0 <= k < inputs.len() ==> (#[trigger] states[k]).spec_pending().len() < PENDING_LIMIT
}

proof fn lemma_run_prefix(states: Seq<SourceState>, inputs: Seq<SampleView>, outs: Seq<Outcome>, k: int)
    requires
        tracker_run(states, inputs, outs),
        0 <= k <= inputs.len(),
    ensures
        states[k].wf(),
        states[0].spec_next() <= states[k].spec_next(),
        states[k].spec_delivered() == states[0].spec_delivered() + count_from(
            states[0].spec_next() as int,
            (states[k].spec_next() - states[0].spec_next()) as nat,
        ),
        forall|j: int|
            0 <= j < k && (#[trigger] inputs[j]).source_sn >= states[k].spec_next() && inputs[j].source_sn
                < u64::MAX ==> holds_sn(states[k].spec_pending(), inputs[j].source_sn),
    decreases k,
{
    let n0 = states[0].spec_next();
    if k == 0 {
        assert(count_from(n0 as int, 0) =~= Seq::<u64>::empty());
        assert(states[0].spec_delivered() + Seq::<u64>::empty() =~= states[0].spec_delivered());
    } else {
        lemma_run_prefix(states, inputs, outs, k - 1);
        let a = states[k - 1];
        let b = states[k];
        assert(sample_step(a, inputs[k - 1], b, outs[k - 1]));
        assert(a.spec_pending().len() < PENDING_LIMIT);
        lemma_step_contiguous(a, inputs[k - 1], b, outs[k - 1]);
        assert(b.spec_delivered() =~= states[0].spec_delivered() + count_from(
            n0 as int,
            (b.spec_next() - n0) as nat,
        ));
        assert forall|j: int|
            0 <= j < k && (#[trigger] inputs[j]).source_sn >= b.spec_next() && inputs[j].source_sn
                < u64::MAX implies holds_sn(b.spec_pending(), inputs[j].source_sn) by {
            lemma_step_keeps_arrived(a, inputs[k - 1], b, outs[k - 1], inputs[j].source_sn);
        }
    }
}

/// No loss: when every number from the first next expected one up to `m` arrives
/// at least once (live or by repair, in any order, duplicates allowed) and the
/// held-back samples never reach their limit, every one of them is delivered,
/// exactly once and in order.
pub proof fn lemma_no_loss(states: Seq<SourceState>, inputs: Seq<SampleView>, outs: Seq<Outcome>, m: u64)
    requires
        tracker_run(states, inputs, outs),
        forall|sn: u64| states[0].spec_next() <= sn < m ==> #[trigger] arrives(inputs, sn),
    ensures
        states.last().spec_next() >= m,
        states.last().spec_delivered() == states[0].spec_delivered() + count_from(
            states[0].spec_next() as int,
            (states.last().spec_next() - states[0].spec_next()) as nat,
        ),
{
    let k = inputs.len() as int;
    lemma_run_prefix(states, inputs, outs, k);
    let last = states[k];
    assert(states.last() == last);
    if last.spec_next() < m {
        let sn = last.spec_next();
        assert(arrives(inputs, sn));
        let i = choose|i: int| 0 <= i < inputs.len() && (#[trigger] inputs[i]).source_sn == sn;
        assert(holds_sn(last.spec_pending(), sn));
        let j = choose|j: int| 0 <= j < last.spec_pending().len() && (#[trigger] last.spec_pending()[j]).source_sn == sn;
        assert(last.wf());
        lemma_wf_pending(last, j);
    }
}

proof fn lemma_wf_pending(st: SourceState, j: int)
    requires
        st.wf(),
        0 <= j < st.spec_pending().len(),
    ensures
        st.spec_pending()[j].source_sn > st.spec_next(),
{
}

/// Permanent loss: when a gap stays open through three repair rounds in a row
/// that fill nothing, the first two ask again and the third gives the gap up as
/// lost, resuming delivery at the first held-back sample.
pub proof fn lemma_gap_given_up_after_attempts(
    s0: SourceState,
    s1: SourceState,
    s2: SourceState,
    s3: SourceState,
    r1: Outcome,
    r2: Outcome,
    r3: Outcome,
)
    requires
        s0.wf(),
        s0.spec_pending().len() > 0,
        s0.spec_failed_repairs() == 0,
        s0.spec_next() == s0.spec_next_at_query(),
        query_done_step(s0, s1, r1),
        query_done_step(s1, s2, r2),
        query_done_step(s2, s3, r3),
    ensures
        r1.lost is None && r1.repair_from == Some(s0.spec_next()),
        r2.lost is None && r2.repair_from == Some(s0.spec_next()),
        r3.lost == Some((s0.spec_next(), s0.spec_pending()[0].source_sn)),
        samples_view(r3.delivered@) == s0.spec_pending().take(
            run_len(s0.spec_pending(), s0.spec_pending()[0].source_sn as int) as int,
        ),
{
}

} // verus!
