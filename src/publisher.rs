use vstd::prelude::*;
use crate::cache::{cache_insert, lemma_insert_ring, lemma_keys_distinct, lemma_rings_bounded, ring_of, ReliabilityCache};
use crate::history::ring_push;
use crate::history::select;
use crate::sample::{samples_view, Sample, SampleKind, SampleView, SourceId};
use crate::selector::{selector_of, SelectorError};
use crate::sequencer::Sequencer;

verus! {

/// Default number of samples kept per resource.
pub const DEFAULT_HISTORY: usize = 1024;

/// The settings of a reliable publisher.
pub struct NBFTReliablePublisherBuilder {
    pub key_expr: String,
    pub with_cache: bool,
    pub history: usize,
    pub resources_limit: Option<usize>,
}

impl NBFTReliablePublisherBuilder {
    /// Settings for publishing on `key_expr`: with a cache of
    /// `DEFAULT_HISTORY` samples per resource and no limit on resources.
    pub fn new(key_expr: String) -> (r: Self)
        ensures
            r.key_expr@ == key_expr@,
            r.with_cache,
            r.history == DEFAULT_HISTORY,
            r.resources_limit is None,
    {
        NBFTReliablePublisherBuilder {
            key_expr,
            with_cache: true,
            history: DEFAULT_HISTORY,
            resources_limit: None,
        }
    }

    /// Turns the cache on or off.
    pub fn with_cache(self, with_cache: bool) -> (r: Self)
        ensures
            r.key_expr@ == self.key_expr@,
            r.with_cache == with_cache,
            r.history == self.history,
            r.resources_limit == self.resources_limit,
    {
        NBFTReliablePublisherBuilder { with_cache, ..self }
    }

    /// Changes the number of samples kept per resource.
    pub fn history(self, history: usize) -> (r: Self)
        ensures
            r.key_expr@ == self.key_expr@,
            r.with_cache == self.with_cache,
            r.history == history,
            r.resources_limit == self.resources_limit,
    {
        NBFTReliablePublisherBuilder { history, ..self }
    }

    /// Limits the number of resources the cache keeps.
    pub fn resources_limit(self, limit: usize) -> (r: Self)
        ensures
            r.key_expr@ == self.key_expr@,
            r.with_cache == self.with_cache,
            r.history == self.history,
            r.resources_limit == Some(limit),
    {
        NBFTReliablePublisherBuilder { resources_limit: Some(limit), ..self }
    }

    /// The publisher of the node-unique `source_id` with these settings.
    pub fn res(self, source_id: SourceId) -> (p: NBFTReliablePublisher)
        ensures
            p.wf(),
            p.spec_key_expr() == self.key_expr@,
            p.spec_source_id() == source_id,
            p.spec_next_sn() == 0,
            p.spec_has_cache() == self.with_cache,
            p.spec_has_cache() ==> p.spec_cache().wf(),
            self.with_cache ==> p.spec_cache().spec_history() == self.history
                && p.spec_cache().spec_resources_limit() == self.resources_limit
                && p.spec_cache()@ == Seq::<(Seq<char>, Seq<SampleView>)>::empty(),
    {
        let cache = if self.with_cache {
            Some(ReliabilityCache::new(self.history, self.resources_limit))
        } else {
            None
        };
        NBFTReliablePublisher { key_expr: self.key_expr, sequencer: Sequencer::new(source_id), cache }
    }
}

/// A publisher that stamps each sample with its source and sequence number and
/// keeps the recent ones in its cache for subscribers to recover.
pub struct NBFTReliablePublisher {
    key_expr: String,
    sequencer: Sequencer,
    cache: Option<ReliabilityCache>,
}

impl NBFTReliablePublisher {
    pub closed spec fn spec_key_expr(&self) -> Seq<char> {
        self.key_expr@
    }

    pub closed spec fn spec_source_id(&self) -> SourceId {
        self.sequencer.spec_source_id()
    }

    pub closed spec fn spec_next_sn(&self) -> u64 {
        self.sequencer.spec_next()
    }

    /// The sequence numbers stamped so far, in order.
    pub closed spec fn spec_issued(&self) -> Seq<u64> {
        self.sequencer.issued()
    }

    pub closed spec fn spec_has_cache(&self) -> bool {
        self.cache is Some
    }

    pub closed spec fn spec_cache(&self) -> ReliabilityCache {
        self.cache->0
    }

    pub closed spec fn wf(&self) -> bool {
        &&& self.sequencer.wf()
        &&& (self.cache matches Some(c) ==> c.wf())
    }

    pub fn key_expr(&self) -> (r: &str)
        ensures
            r@ == self.spec_key_expr(),
    {
        self.key_expr.as_str()
    }

    /// Whether every sequence number has been used, so nothing more can be written.
    pub fn is_exhausted(&self) -> (r: bool)
        ensures
            r == (self.spec_next_sn() == u64::MAX),
    {
        self.sequencer.is_exhausted()
    }

    /// Stamps a sample of `kind` carrying `payload` with the next sequence number,
    /// records it in the cache, and returns it for sending.
    pub fn write(&mut self, kind: SampleKind, payload: Vec<u8>, timestamp: Option<u64>) -> (r: Sample)
        requires
            old(self).wf(),
            old(self).spec_next_sn() < u64::MAX,
        ensures
            final(self).wf(),
            r@ == (SampleView {
                key: old(self).spec_key_expr(),
                kind,
                payload: payload@,
                source_id: old(self).spec_source_id(),
                source_sn: old(self).spec_next_sn(),
                timestamp,
            }),
            final(self).spec_key_expr() == old(self).spec_key_expr(),
            final(self).spec_source_id() == old(self).spec_source_id(),
            final(self).spec_next_sn() == old(self).spec_next_sn() + 1,
            final(self).spec_issued() == old(self).spec_issued().push(r.source_sn),
            final(self).spec_has_cache() == old(self).spec_has_cache(),
            old(self).spec_has_cache() ==> {
                &&& final(self).spec_cache().spec_history() == old(self).spec_cache().spec_history()
                &&& final(self).spec_cache().spec_resources_limit() == old(
                    self,
                ).spec_cache().spec_resources_limit()
                &&& final(self).spec_cache()@ == cache_insert(
                    old(self).spec_cache()@,
                    r@,
                    old(self).spec_cache().spec_history(),
                    old(self).spec_cache().spec_resources_limit(),
                )
                &&& ring_of(final(self).spec_cache()@, r@.key) == ring_push(
                    ring_of(old(self).spec_cache()@, r@.key),
                    r@,
                    old(self).spec_cache().spec_history(),
                )
                &&& forall|k: Seq<char>| #[trigger] ring_of(final(self).spec_cache()@, k).len()
                    <= final(self).spec_cache().spec_history()
            },
            final(self).spec_has_cache() ==> final(self).spec_cache().wf(),
    {
        let info = self.sequencer.stamp();
        let s = Sample {
            key: self.key_expr.clone(),
            kind,
            payload,
            source_id: info.source_id,
            source_sn: info.source_sn,
            timestamp,
        };
        let ghost old_cache = self.cache;
        match &mut self.cache {
            Some(c) => c.insert(s.duplicate()),
            None => {},
        }
        proof {
            if let Some(c0) = old_cache {
                lemma_keys_distinct(&c0);
                lemma_insert_ring(c0@, s@, c0.spec_history(), c0.spec_resources_limit());
                let c = self.cache->0;
                assert forall|k: Seq<char>| #[trigger] ring_of(c@, k).len() <= c.spec_history() by {
                    lemma_rings_bounded(&c, k);
                }
            }
        }
        s
    }

    /// Writes a `Put` of `payload`.
    pub fn put(&mut self, payload: Vec<u8>) -> (r: Sample)
        requires
            old(self).wf(),
            old(self).spec_next_sn() < u64::MAX,
        ensures
            final(self).wf(),
            r@.kind == SampleKind::Put,
            r@.payload == payload@,
            r@.key == old(self).spec_key_expr(),
            r@.source_id == old(self).spec_source_id(),
            r@.source_sn == old(self).spec_next_sn(),
            r@.timestamp is None,
            final(self).spec_next_sn() == old(self).spec_next_sn() + 1,
            final(self).spec_issued() == old(self).spec_issued().push(r.source_sn),
            final(self).spec_has_cache() == old(self).spec_has_cache(),
            old(self).spec_has_cache() ==> final(self).spec_cache()@ == cache_insert(
                old(self).spec_cache()@,
                r@,
                old(self).spec_cache().spec_history(),
                old(self).spec_cache().spec_resources_limit(),
            ),
            final(self).spec_has_cache() ==> final(self).spec_cache().wf(),
    {
        self.write(SampleKind::Put, payload, None)
    }

    /// Writes a `Delete`, which carries no payload.
    pub fn delete(&mut self) -> (r: Sample)
        requires
            old(self).wf(),
            old(self).spec_next_sn() < u64::MAX,
        ensures
            final(self).wf(),
            r@.kind == SampleKind::Delete,
            r@.payload == Seq::<u8>::empty(),
            r@.key == old(self).spec_key_expr(),
            r@.source_id == old(self).spec_source_id(),
            r@.source_sn == old(self).spec_next_sn(),
            r@.timestamp is None,
            final(self).spec_next_sn() == old(self).spec_next_sn() + 1,
            final(self).spec_issued() == old(self).spec_issued().push(r.source_sn),
            final(self).spec_has_cache() == old(self).spec_has_cache(),
            old(self).spec_has_cache() ==> final(self).spec_cache()@ == cache_insert(
                old(self).spec_cache()@,
                r@,
                old(self).spec_cache().spec_history(),
                old(self).spec_cache().spec_resources_limit(),
            ),
            final(self).spec_has_cache() ==> final(self).spec_cache().wf(),
    {
        let empty: Vec<u8> = Vec::new();
        self.write(SampleKind::Delete, empty, None)
    }

    /// Answers a recovery query on the resource `key` with selector parameters
    /// `params`: nothing is retained without a cache.
    pub fn handle_query(&self, key: &str, params: &str) -> (r: Result<Vec<Sample>, SelectorError>)
        requires
            self.wf(),
        ensures
            !self.spec_has_cache() ==> (r matches Ok(v) && v@.len() == 0),
            self.spec_has_cache() ==> (selector_of(params@) matches Err(e) ==> r == Err::<Vec<Sample>, SelectorError>(e)),
            self.spec_has_cache() ==> (selector_of(params@) matches Ok(f) ==> (r matches Ok(v) && samples_view(v@)
                == select(ring_of(self.spec_cache()@, key@), f))),
    {
        match &self.cache {
            Some(c) => c.handle_query(key, params),
            None => Ok(Vec::new()),
        }
    }

    /// Drops the cache's rings; nothing more is answered from it.
    pub fn undeclare(&mut self)
        requires
            old(self).wf(),
        ensures
            final(self).wf(),
            final(self).spec_has_cache() == old(self).spec_has_cache(),
            final(self).spec_has_cache() ==> final(self).spec_cache()@ == Seq::<(Seq<char>, Seq<SampleView>)>::empty(),
            final(self).spec_has_cache() ==> final(self).spec_cache().wf(),
    {
        match &mut self.cache {
            Some(c) => c.close(),
            None => {},
        }
    }
}

/// Of two samples written by one publisher, the later carries the larger
/// sequence number, larger by exactly the number of writes between them.
pub proof fn lemma_writes_in_order(p: &NBFTReliablePublisher, i: int, j: int)
    requires
        p.wf(),
        0 <= i < j < p.spec_issued().len(),
    ensures
        p.spec_issued()[i] < p.spec_issued()[j],
        p.spec_issued()[j] == p.spec_issued()[i] + (j - i),
{
    crate::sequencer::lemma_stamps_in_write_order(&p.sequencer, i, j);
}

} // verus!
