use vstd::prelude::*;
use crate::gap::{query_done_step, sample_step, tick_step, Outcome, SourceState};
use crate::sample::{samples_view, Sample, SampleView, SourceId};

verus! {

/// Index of the source `id` in `ss`, or `ss.len()` if it is not known.
pub open spec fn source_index(ss: Seq<(SourceId, SourceState)>, id: SourceId) -> nat
    decreases ss.len(),
{
    if ss.len() == 0 {
        0
    } else if ss[0].0 == id {
        0
    } else {
        1 + source_index(ss.drop_first(), id)
    }
}

proof fn lemma_source_index(ss: Seq<(SourceId, SourceState)>, id: SourceId, j: int)
    requires
        0 <= j <= ss.len(),
        forall|i: int| 0 <= i < j ==> (#[trigger] ss[i]).0 != id,
        j == ss.len() || ss[j].0 == id,
    ensures
        source_index(ss, id) == j,
    decreases j,
{
    if j > 0 {
        assert(ss[0].0 != id);
        assert forall|i: int| 0 <= i < j - 1 implies (#[trigger] ss.drop_first()[i]).0 != id by {
            assert(ss[i + 1].0 != id);
        }
        lemma_source_index(ss.drop_first(), id, j - 1);
    }
}

/// The decisions of a reliable subscriber: samples are staged until the startup
/// backfill is in (when one is asked for), then each goes through the tracker of
/// its source, created on the source's first sample.
pub struct ReliableSubscriber {
    history: bool,
    started: bool,
    staging: Vec<Sample>,
    sources: Vec<(SourceId, SourceState)>,
}

impl ReliableSubscriber {
    pub closed spec fn spec_history(&self) -> bool {
        self.history
    }

    /// Whether samples now go to their trackers rather than to the staging queue.
    pub closed spec fn spec_started(&self) -> bool {
        self.started
    }

    pub closed spec fn spec_staging(&self) -> Seq<SampleView> {
        samples_view(self.staging@)
    }

    /// Each known source with its tracker, in the order they were first seen.
    pub closed spec fn spec_sources(&self) -> Seq<(SourceId, SourceState)> {
        self.sources@
    }

    pub closed spec fn wf(&self) -> bool {
        &&& forall|i: int| 0 <= i < self.sources@.len() ==> (#[trigger] self.sources@[i]).1.wf()
        &&& forall|i: int, j: int|
            0 <= i < j < self.sources@.len() ==> (#[trigger] self.sources@[i]).0 != (
            #[trigger] self.sources@[j]).0
    }

    /// A subscriber; with `history` it stages live samples until the startup
    /// backfill is in, otherwise it delivers at once.
    pub fn new(history: bool) -> (r: ReliableSubscriber)
        ensures
            r.wf(),
            r.spec_history() == history,
            r.spec_started() == !history,
            r.spec_staging() == Seq::<SampleView>::empty(),
            r.spec_sources() == Seq::<(SourceId, SourceState)>::empty(),
    {
        let r = ReliableSubscriber { history, started: !history, staging: Vec::new(), sources: Vec::new() };
        assert(r.spec_staging() =~= Seq::<SampleView>::empty());
        r
    }

    /// Whether the startup backfill is still awaited.
    pub fn is_staging(&self) -> (r: bool)
        ensures
            r == !self.spec_started(),
    {
        !self.started
    }

    /// The sources seen so far.
    pub fn source_ids(&self) -> (r: Vec<SourceId>)
        ensures
            r@ == self.spec_sources().map_values(|p: (SourceId, SourceState)| p.0),
    {
        let mut r: Vec<SourceId> = Vec::new();
        let mut i: usize = 0;
        while i < self.sources.len()
            invariant
                i <= self.sources@.len(),
                r@ == self.sources@.subrange(0, i as int).map_values(|p: (SourceId, SourceState)| p.0),
            decreases self.sources@.len() - i,
        {
            r.push(self.sources[i].0);
            proof {
                assert(self.sources@.subrange(0, i + 1) =~= self.sources@.subrange(0, i as int).push(
                    self.sources@[i as int],
                ));
            }
            i = i + 1;
            assert(r@ =~= self.sources@.subrange(0, i as int).map_values(|p: (SourceId, SourceState)| p.0));
        }
        assert(self.sources@.subrange(0, i as int) =~= self.sources@);
        r
    }

    fn index_of(&self, id: SourceId) -> (r: usize)
        ensures
            r == source_index(self.sources@, id),
            r <= self.sources@.len(),
            r < self.sources@.len() ==> self.sources@[r as int].0 == id,
            r == self.sources@.len() ==> forall|j: int|
                0 <= j < self.sources@.len() ==> (#[trigger] self.sources@[j]).0 != id,
    {
        let mut i: usize = 0;
        while i < self.sources.len() && self.sources[i].0 != id
            invariant
                i <= self.sources@.len(),
                forall|j: int| 0 <= j < i ==> (#[trigger] self.sources@[j]).0 != id,
            decreases self.sources@.len() - i,
        {
            i = i + 1;
        }
        proof {
            lemma_source_index(self.sources@, id, i as int);
        }
        i
    }

    /// Ends the startup: returns the staged samples, oldest first, for the owner to
    /// hand back through `on_sample` after the backfill replies.
    pub fn begin_delivery(&mut self) -> (r: Vec<Sample>)
        requires
            old(self).wf(),
        ensures
            final(self).wf(),
            samples_view(r@) == old(self).spec_staging(),
            final(self).spec_started(),
            final(self).spec_staging() == Seq::<SampleView>::empty(),
            final(self).spec_sources() == old(self).spec_sources(),
            final(self).spec_history() == old(self).spec_history(),
    {
        let staged = self.staging.split_off(0);
        self.started = true;
        assert(self.spec_staging() =~= Seq::<SampleView>::empty());
        assert(staged@ =~= old(self).staging@);
        staged
    }

    /// Handles a sample, live or from a backfill or repair reply. Before delivery
    /// begins it is staged. After, it goes to the tracker of its source; a source
    /// seen for the first time starts at this sample's number.
    pub fn on_sample(&mut self, s: Sample) -> (r: Outcome)
        requires
            old(self).wf(),
        ensures
            final(self).wf(),
            final(self).spec_started() == old(self).spec_started(),
            final(self).spec_history() == old(self).spec_history(),
            !old(self).spec_started() ==> {
                &&& r.delivered@.len() == 0
                &&& r.repair_from is None
                &&& r.lost is None
                &&& final(self).spec_staging() == old(self).spec_staging().push(s@)
                &&& final(self).spec_sources() == old(self).spec_sources()
            },
            old(self).spec_started() ==> {
                let ss = old(self).spec_sources();
                let i = source_index(ss, s@.source_id);
                &&& final(self).spec_staging() == old(self).spec_staging()
                &&& i < ss.len() ==> {
                    &&& final(self).spec_sources().len() == ss.len()
                    &&& final(self).spec_sources()[i as int].0 == s@.source_id
                    &&& sample_step(ss[i as int].1, s@, final(self).spec_sources()[i as int].1, r)
                    &&& forall|j: int|
                        0 <= j < ss.len() && j != i ==> #[trigger] final(self).spec_sources()[j] == ss[j]
                }
                &&& i == ss.len() ==> {
                    let st = final(self).spec_sources().last().1;
                    &&& final(self).spec_sources().drop_last() == ss
                    &&& final(self).spec_sources().last().0 == s@.source_id
                    &&& st.spec_pending() == Seq::<SampleView>::empty()
                    &&& !st.spec_outstanding()
                    &&& st.spec_failed_repairs() == 0
                    &&& st.spec_next_at_query() == s@.source_sn
                    &&& st.spec_next_at_tick() == s@.source_sn
                    &&& r.repair_from is None
                    &&& r.lost is None
                    &&& if s@.source_sn < u64::MAX {
                        &&& samples_view(r.delivered@) == seq![s@]
                        &&& st.spec_next() == s@.source_sn + 1
                        &&& st.spec_delivered() == seq![s@.source_sn]
                    } else {
                        &&& r.delivered@.len() == 0
                        &&& st.spec_next() == s@.source_sn
                        &&& st.spec_delivered() == Seq::<u64>::empty()
                    }
                }
            },
    {
        if !self.started {
            let ghost before = self.spec_staging();
            let ghost sv = s@;
            self.staging.push(s);
            assert(self.spec_staging() =~= before.push(sv));
            return Outcome { delivered: Vec::new(), repair_from: None, lost: None };
        }
        let id = s.source_id;
        let i = self.index_of(id);
        if i < self.sources.len() {
            let (sid, mut st) = self.sources.remove(i);
            let r = st.on_sample(s);
            self.sources.insert(i, (sid, st));
            proof {
                let ss = old(self).sources@;
                assert(self.sources@ =~= ss.update(i as int, (sid, st)));
            }
            r
        } else {
            let mut st = SourceState::new(s.source_sn);
            let ghost sv = s@;
            let r = st.on_sample(s);
            proof {
                assert(Seq::<SampleView>::empty().skip(0) =~= Seq::<SampleView>::empty());
                assert(Seq::<SampleView>::empty().take(0) =~= Seq::<SampleView>::empty());
                assert(seq![sv] + Seq::<SampleView>::empty() =~= seq![sv]);
                assert(Seq::<u64>::empty() + seq![sv.source_sn] =~= seq![sv.source_sn]);
                assert(Seq::<u64>::empty() + Seq::<u64>::empty() =~= Seq::<u64>::empty());
            }
            self.sources.push((id, st));
            proof {
                assert(self.sources@.drop_last() =~= old(self).sources@);
            }
            r
        }
    }

    /// Handles the end of the repair in flight for source `id`; nothing happens
    /// for a source never seen.
    pub fn on_query_done(&mut self, id: SourceId) -> (r: Outcome)
        requires
            old(self).wf(),
        ensures
            final(self).wf(),
            final(self).spec_started() == old(self).spec_started(),
            final(self).spec_staging() == old(self).spec_staging(),
            final(self).spec_sources().len() == old(self).spec_sources().len(),
            ({
                let ss = old(self).spec_sources();
                let i = source_index(ss, id);
                &&& i == ss.len() ==> {
                    &&& r.delivered@.len() == 0
                    &&& r.repair_from is None
                    &&& r.lost is None
                    &&& final(self).spec_sources() == ss
                }
                &&& i < ss.len() ==> {
                    &&& final(self).spec_sources()[i as int].0 == id
                    &&& query_done_step(ss[i as int].1, final(self).spec_sources()[i as int].1, r)
                    &&& forall|j: int|
                        0 <= j < ss.len() && j != i ==> #[trigger] final(self).spec_sources()[j] == ss[j]
                }
            }),
    {
        let i = self.index_of(id);
        if i < self.sources.len() {
            let (sid, mut st) = self.sources.remove(i);
            let r = st.on_query_done();
            self.sources.insert(i, (sid, st));
            proof {
                let ss = old(self).sources@;
                assert(self.sources@ =~= ss.update(i as int, (sid, st)));
            }
            r
        } else {
            Outcome { delivered: Vec::new(), repair_from: None, lost: None }
        }
    }

    /// Periodic scan of source `id`; `silent` says whether it has sent nothing
    /// live for a whole period. Returns where a repair should start, if one is due.
    pub fn on_tick(&mut self, id: SourceId, silent: bool) -> (r: Option<u64>)
        requires
            old(self).wf(),
        ensures
            final(self).wf(),
            final(self).spec_started() == old(self).spec_started(),
            final(self).spec_staging() == old(self).spec_staging(),
            final(self).spec_sources().len() == old(self).spec_sources().len(),
            ({
                let ss = old(self).spec_sources();
                let i = source_index(ss, id);
                &&& i == ss.len() ==> r is None && final(self).spec_sources() == ss
                &&& i < ss.len() ==> {
                    &&& final(self).spec_sources()[i as int].0 == id
                    &&& tick_step(ss[i as int].1, silent, final(self).spec_sources()[i as int].1, r)
                    &&& forall|j: int|
                        0 <= j < ss.len() && j != i ==> #[trigger] final(self).spec_sources()[j] == ss[j]
                }
            }),
    {
        let i = self.index_of(id);
        if i < self.sources.len() {
            let (sid, mut st) = self.sources.remove(i);
            let r = st.on_tick(silent);
            self.sources.insert(i, (sid, st));
            proof {
                let ss = old(self).sources@;
                assert(self.sources@ =~= ss.update(i as int, (sid, st)));
            }
            r
        } else {
            None
        }
    }
}

} // verus!
