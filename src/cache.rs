use vstd::prelude::*;
use crate::history::{ring_push, select, HistoryRing, SnRange};
use vstd::string::StrSliceExecFns;
use crate::parameters::Parameters;
use crate::sample::{samples_view, Sample, SampleView};
use crate::selector::{parse_selector, selector_of, SelectorError};

verus! {

/// The view of the resource table: each resource key with its retained samples.
pub open spec fn resources_view(v: Seq<(String, HistoryRing)>) -> Seq<(Seq<char>, Seq<SampleView>)> {
    v.map_values(|p: (String, HistoryRing)| (p.0@, p.1@))
}

/// Index of the resource `k` in `rs`, or `rs.len()` if it is not there.
pub open spec fn resource_index(rs: Seq<(Seq<char>, Seq<SampleView>)>, k: Seq<char>) -> nat
    decreases rs.len(),
{
    if rs.len() == 0 {
        0
    } else if rs[0].0 == k {
        0
    } else {
        1 + resource_index(rs.drop_first(), k)
    }
}

/// The samples retained for resource `k`: none when it has no ring.
pub open spec fn ring_of(rs: Seq<(Seq<char>, Seq<SampleView>)>, k: Seq<char>) -> Seq<SampleView> {
    let i = resource_index(rs, k);
    if i < rs.len() {
        rs[i as int].1
    } else {
        Seq::empty()
    }
}

/// The resource table after the sample `s` is recorded. The resource of `s` moves
/// to the end (it is now the most recently inserted). A new resource gets a new
/// ring; when the table already holds `limit` resources, the least recently
/// inserted one is dropped first; its ring takes the sample as any ring does.
pub open spec fn cache_insert(
    rs: Seq<(Seq<char>, Seq<SampleView>)>,
    s: SampleView,
    history: nat,
    limit: Option<usize>,
) -> Seq<(Seq<char>, Seq<SampleView>)> {
    let i = resource_index(rs, s.key);
    if i < rs.len() {
        rs.remove(i as int).push((s.key, ring_push(rs[i as int].1, s, history)))
    } else {
        let base = if limit matches Some(l) && rs.len() >= l && rs.len() > 0 {
            rs.drop_first()
        } else {
            rs
        };
        base.push((s.key, ring_push(Seq::empty(), s, history)))
    }
}

proof fn lemma_resource_index(rs: Seq<(Seq<char>, Seq<SampleView>)>, k: Seq<char>, j: int)
    requires
        0 <= j <= rs.len(),
        forall|i: int| 0 <= i < j ==> (#[trigger] rs[i]).0 != k,
        j == rs.len() || rs[j].0 == k,
    ensures
        resource_index(rs, k) == j,
    decreases j,
{
    if j > 0 {
        assert(rs[0].0 != k);
        assert forall|i: int| 0 <= i < j - 1 implies (#[trigger] rs.drop_first()[i]).0 != k by {
            assert(rs[i + 1].0 != k);
        }
        lemma_resource_index(rs.drop_first(), k, j - 1);
    }
}

/// The resource key that a query on `query_key` asks for, when `query_key` is
/// `prefix/resource`.
pub open spec fn resource_of(query_key: Seq<char>, prefix: Seq<char>) -> Option<Seq<char>> {
    let n = prefix.len();
    if query_key.len() > n && query_key.subrange(0, n as int) == prefix && query_key[n as int] == '/' {
        Some(query_key.subrange((n + 1) as int, query_key.len() as int))
    } else {
        None
    }
}

/// Recovers the resource key from the key of a query sent to the cache's
/// queryable, which is the resource key under the cache's `prefix` segment.
pub fn resource_key<'a>(query_key: &'a str, prefix: &str) -> (r: Option<&'a str>)
    ensures
        r matches Some(v) ==> resource_of(query_key@, prefix@) == Some(v@),
        r is None ==> resource_of(query_key@, prefix@) is None,
{
    let n = prefix.unicode_len();
    let len = query_key.unicode_len();
    if len <= n {
        return None;
    }
    let head = query_key.substring_char(0, n);
    if !Parameters::key_eq(head, prefix) || query_key.get_char(n) != '/' {
        return None;
    }
    Some(query_key.substring_char(n + 1, len))
}

/// Publisher-side cache: for each resource, a ring of its most recent samples.
pub struct ReliabilityCache {
    history: usize,
    resources_limit: Option<usize>,
    resources: Vec<(String, HistoryRing)>,
}

impl View for ReliabilityCache {
    type V = Seq<(Seq<char>, Seq<SampleView>)>;

    closed spec fn view(&self) -> Seq<(Seq<char>, Seq<SampleView>)> {
        resources_view(self.resources@)
    }
}

impl ReliabilityCache {
    /// Capacity of each resource's ring.
    pub closed spec fn spec_history(&self) -> nat {
        self.history as nat
    }

    pub closed spec fn spec_resources_limit(&self) -> Option<usize> {
        self.resources_limit
    }

    /// Each resource appears once, each ring is well formed with the configured
    /// capacity, and the table respects its limit.
    pub closed spec fn wf(&self) -> bool {
        &&& forall|i: int| #![trigger self.resources@[i]] 0 <= i < self.resources@.len() ==> {
            &&& self.resources@[i].1.wf()
            &&& self.resources@[i].1.spec_capacity() == self.history
        }
        &&& forall|i: int, j: int|
            0 <= i < j < self.resources@.len() ==> #[trigger] self.resources@[i].0@
                != #[trigger] self.resources@[j].0@
        &&& (self.resources_limit matches Some(l) ==> self.resources@.len() <= l || self.resources@.len() <= 1)
    }

    /// An empty cache keeping `history` samples per resource and at most
    /// `resources_limit` resources, if given.
    pub fn new(history: usize, resources_limit: Option<usize>) -> (r: ReliabilityCache)
        ensures
            r.wf(),
            r@ == Seq::<(Seq<char>, Seq<SampleView>)>::empty(),
            r.spec_history() == history,
            r.spec_resources_limit() == resources_limit,
    {
        let r = ReliabilityCache { history, resources_limit, resources: Vec::new() };
        assert(r@ =~= Seq::<(Seq<char>, Seq<SampleView>)>::empty());
        r
    }

    /// Index of the resource `k`, or the number of resources if it has no ring.
    fn index_of(&self, k: &str) -> (r: usize)
        ensures
            r == resource_index(self@, k@),
            r <= self@.len(),
            r < self@.len() ==> self@[r as int].0 == k@,
            r == self@.len() ==> forall|j: int| 0 <= j < self@.len() ==> (#[trigger] self@[j]).0 != k@,
    {
        let ghost rs = self@;
        let mut i: usize = 0;
        while i < self.resources.len()
            invariant
                rs == self@,
                i <= self.resources@.len(),
                forall|j: int| 0 <= j < i ==> (#[trigger] rs[j]).0 != k@,
            decreases self.resources@.len() - i,
        {
            if Parameters::key_eq(self.resources[i].0.as_str(), k) {
                proof {
                    lemma_resource_index(rs, k@, i as int);
                }
                return i;
            }
            i = i + 1;
        }
        proof {
            lemma_resource_index(rs, k@, i as int);
        }
        i
    }

    /// Records a sample that the publisher emitted.
    pub fn insert(&mut self, s: Sample)
        requires
            old(self).wf(),
        ensures
            final(self).wf(),
            final(self).spec_history() == old(self).spec_history(),
            final(self).spec_resources_limit() == old(self).spec_resources_limit(),
            final(self)@ == cache_insert(old(self)@, s@, old(self).spec_history(), old(self).spec_resources_limit()),
    {
        let ghost rs = self@;
        let ghost old_res = self.resources@;
        let i = self.index_of(s.key.as_str());
        if i < self.resources.len() {
            let (k, mut ring) = self.resources.remove(i);
            proof {
                assert(old_res[i as int].1.wf());
            }
            let ghost sv = s@;
            let ghost before_ring = ring@;
            ring.push(s);
            let ghost mid = self.resources@;
            self.resources.push((k, ring));
            proof {
                assert(before_ring == rs[i as int].1);
                assert(k@ == rs[i as int].0);
                assert(rs[i as int].0 == sv.key);
                assert(resources_view(mid) =~= rs.remove(i as int));
                assert(self@ =~= resources_view(mid).push((k@, ring@)));
                assert forall|a: int, b: int|
                    0 <= a < b < self.resources@.len() implies #[trigger] self.resources@[a].0@
                        != #[trigger] self.resources@[b].0@ by {
                    let ia = if a < i { a } else { a + 1 };
                    assert(self.resources@[a] == old_res[ia]);
                    if b < self.resources@.len() - 1 {
                        let ib = if b < i { b } else { b + 1 };
                        assert(self.resources@[b] == old_res[ib]);
                    } else {
                        assert(rs[ia].0 == old_res[ia].0@);
                        assert(rs[i as int].0 == k@);
                    }
                }
                assert forall|a: int| #![trigger self.resources@[a]] 0 <= a < self.resources@.len() implies {
                    &&& self.resources@[a].1.wf()
                    &&& self.resources@[a].1.spec_capacity() == self.history
                } by {
                    if a < self.resources@.len() - 1 {
                        let ia = if a < i { a } else { a + 1 };
                        assert(self.resources@[a] == old_res[ia]);
                    }
                }
            }
        } else {
            match self.resources_limit {
                Some(l) => {
                    if self.resources.len() >= l && self.resources.len() > 0 {
                        self.resources.remove(0);
                    }
                },
                None => {},
            }
            let ghost mid = self.resources@;
            let k = s.key.clone();
            let mut ring = HistoryRing::new(self.history);
            let ghost sv = s@;
            ring.push(s);
            self.resources.push((k, ring));
            proof {
                let base = if self.resources_limit matches Some(l) && rs.len() >= l && rs.len() > 0 {
                    rs.drop_first()
                } else {
                    rs
                };
                assert(resources_view(mid) =~= base);
                assert(ring@ =~= ring_push(Seq::<SampleView>::empty(), sv, self.history as nat));
                assert(self@ =~= base.push((sv.key, ring_push(Seq::<SampleView>::empty(), sv, self.history as nat))));
                let off: int = if mid.len() < old_res.len() { 1 } else { 0 };
                assert forall|a: int| 0 <= a < mid.len() implies #[trigger] mid[a] == old_res[a + off] by {}
                assert forall|a: int, b: int|
                    0 <= a < b < self.resources@.len() implies #[trigger] self.resources@[a].0@
                        != #[trigger] self.resources@[b].0@ by {
                    assert(self.resources@[a] == old_res[a + off]);
                    if b < self.resources@.len() - 1 {
                        assert(self.resources@[b] == old_res[b + off]);
                    } else {
                        assert(rs[a + off].0 == old_res[a + off].0@);
                        assert(rs[a + off].0 != sv.key);
                    }
                }
                assert forall|a: int| #![trigger self.resources@[a]] 0 <= a < self.resources@.len() implies {
                    &&& self.resources@[a].1.wf()
                    &&& self.resources@[a].1.spec_capacity() == self.history
                } by {
                    if a < self.resources@.len() - 1 {
                        assert(self.resources@[a] == old_res[a + off]);
                    }
                }
            }
        }
    }

    /// Copies of the samples retained for resource `key` that `f` asks for, oldest
    /// first; none when the resource has no ring.
    pub fn query(&self, key: &str, f: &SnRange) -> (r: Vec<Sample>)
        requires
            self.wf(),
        ensures
            samples_view(r@) == select(ring_of(self@, key@), *f),
    {
        let i = self.index_of(key);
        if i < self.resources.len() {
            self.resources[i].1.query(f)
        } else {
            let r: Vec<Sample> = Vec::new();
            proof {
                assert(samples_view(r@) =~= Seq::<SampleView>::empty());
                assert(select(Seq::<SampleView>::empty(), *f) =~= Seq::<SampleView>::empty());
            }
            r
        }
    }

    /// Answers a recovery query for resource `key` whose selector parameters are
    /// `params`; a selector that cannot be read is refused.
    pub fn handle_query(&self, key: &str, params: &str) -> (r: Result<Vec<Sample>, SelectorError>)
        requires
            self.wf(),
        ensures
            selector_of(params@) matches Err(e) ==> r == Err::<Vec<Sample>, SelectorError>(e),
            selector_of(params@) matches Ok(f) ==> r matches Ok(v) && samples_view(v@) == select(
                ring_of(self@, key@),
                f,
            ),
    {
        match parse_selector(params) {
            Ok(f) => Ok(self.query(key, &f)),
            Err(e) => Err(e),
        }
    }

    /// Drops every ring.
    pub fn close(&mut self)
        requires
            old(self).wf(),
        ensures
            final(self).wf(),
            final(self)@ == Seq::<(Seq<char>, Seq<SampleView>)>::empty(),
            final(self).spec_history() == old(self).spec_history(),
            final(self).spec_resources_limit() == old(self).spec_resources_limit(),
    {
        self.resources = Vec::new();
        assert(self@ =~= Seq::<(Seq<char>, Seq<SampleView>)>::empty());
    }
}

/// In a well-formed cache of capacity `history`, no resource retains more than
/// `history` samples.
pub proof fn lemma_rings_bounded(c: &ReliabilityCache, k: Seq<char>)
    requires
        c.wf(),
    ensures
        ring_of(c@, k).len() <= c.spec_history(),
{
    let i = resource_index(c@, k);
    if i < c@.len() {
        let r = c.resources@[i as int].1;
        crate::history::lemma_ring_bounded(&r);
    }
}

/// No two resources of `rs` share a key.
pub open spec fn keys_distinct(rs: Seq<(Seq<char>, Seq<SampleView>)>) -> bool {
    forall|i: int, j: int| 0 <= i < j < rs.len() ==> #[trigger] rs[i].0 != #[trigger] rs[j].0
}

/// A well-formed cache holds each resource key once.
pub proof fn lemma_keys_distinct(c: &ReliabilityCache)
    requires
        c.wf(),
    ensures
        keys_distinct(c@),
{
    assert forall|i: int, j: int| 0 <= i < j < c@.len() implies #[trigger] c@[i].0 != #[trigger] c@[j].0 by {
        assert(c@[i].0 == c.resources@[i].0@);
        assert(c@[j].0 == c.resources@[j].0@);
    }
}

proof fn lemma_resource_index_found(rs: Seq<(Seq<char>, Seq<SampleView>)>, k: Seq<char>)
    ensures
        resource_index(rs, k) <= rs.len(),
        resource_index(rs, k) < rs.len() ==> rs[resource_index(rs, k) as int].0 == k,
        resource_index(rs, k) == rs.len() ==> forall|j: int| 0 <= j < rs.len() ==> (#[trigger] rs[j]).0 != k,
    decreases rs.len(),
{
    if rs.len() > 0 && rs[0].0 != k {
        lemma_resource_index_found(rs.drop_first(), k);
        if resource_index(rs, k) == rs.len() {
            assert forall|j: int| 0 <= j < rs.len() implies (#[trigger] rs[j]).0 != k by {
                if j > 0 {
                    assert(rs[j] == rs.drop_first()[j - 1]);
                }
            }
        }
    }
}

/// Recording a sample appends it to the ring of its resource, the oldest entry
/// going first when the ring is full (a new resource starts from an empty
/// ring), and keeps the resource keys distinct.
pub proof fn lemma_insert_ring(
    rs: Seq<(Seq<char>, Seq<SampleView>)>,
    s: SampleView,
    history: nat,
    limit: Option<usize>,
)
    requires
        keys_distinct(rs),
    ensures
        ring_of(cache_insert(rs, s, history, limit), s.key) == ring_push(ring_of(rs, s.key), s, history),
        keys_distinct(cache_insert(rs, s, history, limit)),
{
    let k = s.key;
    let n = cache_insert(rs, s, history, limit);
    lemma_resource_index_found(rs, k);
    let i = resource_index(rs, k) as int;
    let base = if i < rs.len() {
        rs.remove(i)
    } else if limit matches Some(l) && rs.len() >= l && rs.len() > 0 {
        rs.drop_first()
    } else {
        rs
    };
    let off: int = if i >= rs.len() && base.len() < rs.len() { 1 } else { 0 };
    assert forall|a: int| 0 <= a < base.len() implies #[trigger] base[a] == rs[if i < rs.len() && a >= i { a + 1 } else { a + off }] by {}
    assert forall|a: int| 0 <= a < base.len() implies (#[trigger] base[a]).0 != k by {
        let ia = if i < rs.len() && a >= i { a + 1 } else { a + off };
        if i < rs.len() {
            if ia < i {
                assert(rs[ia].0 != rs[i].0);
            } else {
                assert(rs[i].0 != rs[ia].0);
            }
        }
    }
    assert(n.len() == base.len() + 1);
    assert(n.drop_last() =~= base);
    assert forall|a: int| 0 <= a < n.len() - 1 implies (#[trigger] n[a]).0 != k by {
        assert(n[a] == base[a]);
    }
    lemma_resource_index(n, k, n.len() - 1);
    assert forall|a: int, b: int| 0 <= a < b < n.len() implies #[trigger] n[a].0 != #[trigger] n[b].0 by {
        if b < n.len() - 1 {
            let ia = if i < rs.len() && a >= i { a + 1 } else { a + off };
            let ib = if i < rs.len() && b >= i { b + 1 } else { b + off };
            assert(n[a] == rs[ia] && n[b] == rs[ib]);
        } else {
            assert(n[a] == base[a]);
        }
    }
}

} // verus!
