use vstd::prelude::*;
use crate::sample::{samples_view, Sample, SampleView, SourceId};

verus! {

/// Which retained samples a recovery query asks for: those of one source (or of
/// every source) whose sequence number lies in an inclusive range whose bounds
/// may be absent.
#[derive(Clone, Copy, Debug, PartialEq, Eq, Structural)]
pub struct SnRange {
    pub source: Option<SourceId>,
    pub lo: Option<u64>,
    pub hi: Option<u64>,
}

impl SnRange {
    pub open spec fn spec_matches(self, s: SampleView) -> bool {
        &&& (self.source matches Some(id) ==> s.source_id == id)
        &&& (self.lo matches Some(lo) ==> lo <= s.source_sn)
        &&& (self.hi matches Some(hi) ==> s.source_sn <= hi)
    }

    /// Whether `s` is asked for.
    pub fn matches(&self, s: &Sample) -> (r: bool)
        ensures
            r == self.spec_matches(s@),
    {
        let src_ok = match self.source {
            Some(id) => s.source_id == id,
            None => true,
        };
        let lo_ok = match self.lo {
            Some(lo) => lo <= s.source_sn,
            None => true,
        };
        let hi_ok = match self.hi {
            Some(hi) => s.source_sn <= hi,
            None => true,
        };
        src_ok && lo_ok && hi_ok
    }
}

/// The samples of `es` that `f` asks for, in their order.
pub open spec fn select(es: Seq<SampleView>, f: SnRange) -> Seq<SampleView>
    decreases es.len(),
{
    if es.len() == 0 {
        Seq::empty()
    } else if f.spec_matches(es.last()) {
        select(es.drop_last(), f).push(es.last())
    } else {
        select(es.drop_last(), f)
    }
}

/// `es` after `s` is appended to a ring of `capacity` entries: when the ring is
/// full, its oldest entry goes first. A ring of capacity 0 keeps nothing.
pub open spec fn ring_push(es: Seq<SampleView>, s: SampleView, capacity: nat) -> Seq<SampleView> {
    if capacity == 0 {
        Seq::empty()
    } else if es.len() >= capacity {
        es.drop_first().push(s)
    } else {
        es.push(s)
    }
}

/// Bounded first-in first-out history of the samples of one resource.
pub struct HistoryRing {
    capacity: usize,
    entries: Vec<Sample>,
}

impl View for HistoryRing {
    type V = Seq<SampleView>;

    closed spec fn view(&self) -> Seq<SampleView> {
        samples_view(self.entries@)
    }
}

impl HistoryRing {
    pub closed spec fn spec_capacity(&self) -> nat {
        self.capacity as nat
    }

    /// The ring never holds more entries than its capacity.
    pub closed spec fn wf(&self) -> bool {
        &&& self.entries@.len() <= self.capacity
    }

    /// An empty ring that keeps the `capacity` most recent samples.
    pub fn new(capacity: usize) -> (r: HistoryRing)
        ensures
            r.wf(),
            r@ == Seq::<SampleView>::empty(),
            r.spec_capacity() == capacity,
    {
        let r = HistoryRing { capacity, entries: Vec::new() };
        assert(r@ =~= Seq::<SampleView>::empty());
        r
    }

    pub fn capacity(&self) -> (r: usize)
        ensures
            r == self.spec_capacity(),
    {
        self.capacity
    }

    pub fn len(&self) -> (r: usize)
        ensures
            r == self@.len(),
    {
        self.entries.len()
    }

    /// Appends `s`, dropping the oldest entry first when the ring is full; a ring
    /// of capacity 0 keeps nothing.
    pub fn push(&mut self, s: Sample)
        requires
            old(self).wf(),
        ensures
            final(self).wf(),
            final(self).spec_capacity() == old(self).spec_capacity(),
            final(self)@ == ring_push(old(self)@, s@, old(self).spec_capacity()),
            final(self)@.len() <= final(self).spec_capacity(),
    {
        let ghost before = self@;
        if self.capacity == 0 {
            assert(self@ =~= Seq::<SampleView>::empty());
            return;
        }
        if self.entries.len() >= self.capacity {
            self.entries.remove(0);
        }
        let ghost mid = samples_view(self.entries@);
        self.entries.push(s);
        proof {
            if before.len() >= self.capacity {
                assert(mid =~= before.drop_first());
            } else {
                assert(mid =~= before);
            }
            assert(self@ =~= mid.push(s@));
        }
    }

    /// Copies of the retained samples that `f` asks for, oldest first.
    pub fn query(&self, f: &SnRange) -> (r: Vec<Sample>)
        ensures
            samples_view(r@) == select(self@, *f),
    {
        let ghost es = self@;
        let mut res: Vec<Sample> = Vec::new();
        let mut i: usize = 0;
        proof {
            assert(es.subrange(0, 0) =~= Seq::<SampleView>::empty());
            assert(samples_view(res@) =~= Seq::<SampleView>::empty());
        }
        while i < self.entries.len()
            invariant
                es == self@,
                i <= self.entries@.len(),
                samples_view(res@) == select(es.subrange(0, i as int), *f),
            decreases self.entries@.len() - i,
        {
            let ghost before = samples_view(res@);
            proof {
                assert(es.subrange(0, i + 1).drop_last() =~= es.subrange(0, i as int));
                assert(es.subrange(0, i + 1).last() == self.entries@[i as int]@);
            }
            if f.matches(&self.entries[i]) {
                let c = self.entries[i].duplicate();
                res.push(c);
                proof {
                    assert(samples_view(res@) =~= before.push(c@));
                }
            }
            i = i + 1;
        }
        proof {
            assert(es.subrange(0, es.len() as int) =~= es);
        }
        res
    }
}

/// A well-formed ring never holds more entries than its capacity.
pub proof fn lemma_ring_bounded(r: &HistoryRing)
    requires
        r.wf(),
    ensures
        r@.len() <= r.spec_capacity(),
{
}

} // verus!
