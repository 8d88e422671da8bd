use vstd::prelude::*;

verus! {

/// The source information stamped onto an outgoing sample.
#[derive(Clone, Copy, Debug, PartialEq, Eq, Structural)]
pub struct SourceInfo {
    pub source_id: u128,
    pub source_sn: u64,
}

/// Per-publisher generator of sequence numbers: starts at 0 and hands out each
/// number once, in order.
pub struct Sequencer {
    source_id: u128,
    next: u64,
    /// The numbers handed out so far, in the order they were handed out.
    issued: Ghost<Seq<u64>>,
}

impl Sequencer {
    pub closed spec fn spec_source_id(&self) -> u128 {
        self.source_id
    }

    /// The number that the next stamp will carry.
    pub closed spec fn spec_next(&self) -> u64 {
        self.next
    }

    /// The numbers handed out so far, in order.
    pub closed spec fn issued(&self) -> Seq<u64> {
        self.issued@
    }

    /// The numbers handed out are `0, 1, ...` in order, and the next one follows them.
    pub closed spec fn wf(&self) -> bool {
        &&& self.issued@.len() == self.next
        &&& forall|i: int| 0 <= i < self.issued@.len() ==> #[trigger] self.issued@[i] == i
    }

    /// A fresh sequencer for the publisher `source_id`.
    pub fn new(source_id: u128) -> (r: Sequencer)
        ensures
            r.wf(),
            r.spec_source_id() == source_id,
            r.spec_next() == 0,
            r.issued() == Seq::<u64>::empty(),
    {
        Sequencer { source_id, next: 0, issued: Ghost(Seq::empty()) }
    }

    pub fn source_id(&self) -> (r: u128)
        ensures
            r == self.spec_source_id(),
    {
        self.source_id
    }

    /// The number that the next stamp will carry.
    pub fn next_sn(&self) -> (r: u64)
        ensures
            r == self.spec_next(),
    {
        self.next
    }

    /// Whether every sequence number has been handed out.
    pub fn is_exhausted(&self) -> (r: bool)
        ensures
            r == (self.spec_next() == u64::MAX),
    {
        self.next == u64::MAX
    }

    /// Takes the next sequence number and returns the stamp that carries it.
    pub fn stamp(&mut self) -> (r: SourceInfo)
        requires
            old(self).wf(),
            old(self).spec_next() < u64::MAX,
        ensures
            final(self).wf(),
            r.source_id == old(self).spec_source_id(),
            r.source_sn == old(self).spec_next(),
            final(self).spec_source_id() == old(self).spec_source_id(),
            final(self).spec_next() == old(self).spec_next() + 1,
            final(self).issued() == old(self).issued().push(r.source_sn),
    {
        let sn = self.next;
        self.next = sn + 1;
        self.issued = Ghost(self.issued@.push(sn));
        SourceInfo { source_id: self.source_id, source_sn: sn }
    }
}

/// Of two stamps of one publisher, the later one carries the larger number, larger
/// by exactly the number of stamps taken since the earlier one.
pub proof fn lemma_stamps_in_write_order(s: &Sequencer, i: int, j: int)
    requires
        s.wf(),
        0 <= i < j < s.issued().len(),
    ensures
        s.issued()[i] < s.issued()[j],
        s.issued()[j] == s.issued()[i] + (j - i),
{
    assert(s.issued@[i] == i);
    assert(s.issued@[j] == j);
}

} // verus!
