use vstd::prelude::*;

verus! {

/// What a sample does to its resource.
#[derive(Clone, Copy, Debug, PartialEq, Eq, Structural)]
pub enum SampleKind {
    Put,
    Delete,
}

/// Identifier of a publisher instance: stable for its whole life, unique per node.
pub type SourceId = u128;

/// One published sample, with the source information stamped by its publisher.
#[derive(Debug)]
pub struct Sample {
    pub key: String,
    pub kind: SampleKind,
    pub payload: Vec<u8>,
    pub source_id: SourceId,
    pub source_sn: u64,
    pub timestamp: Option<u64>,
}

/// The mathematical value of a sample.
pub struct SampleView {
    pub key: Seq<char>,
    pub kind: SampleKind,
    pub payload: Seq<u8>,
    pub source_id: SourceId,
    pub source_sn: u64,
    pub timestamp: Option<u64>,
}

impl View for Sample {
    type V = SampleView;

    open spec fn view(&self) -> SampleView {
        SampleView {
            key: self.key@,
            kind: self.kind,
            payload: self.payload@,
            source_id: self.source_id,
            source_sn: self.source_sn,
            timestamp: self.timestamp,
        }
    }
}

/// The views of a list of samples.
pub open spec fn samples_view(s: Seq<Sample>) -> Seq<SampleView> {
    s.map_values(|x: Sample| x@)
}

/// The sequence numbers of a list of samples.
pub open spec fn sns_of(s: Seq<SampleView>) -> Seq<u64> {
    s.map_values(|x: SampleView| x.source_sn)
}

impl Sample {
    /// A copy of this sample.
    pub fn duplicate(&self) -> (r: Sample)
        ensures
            r@ == self@,
    {
        let payload = self.payload.clone();
        assert(payload@ =~= self.payload@);
        Sample {
            key: self.key.clone(),
            kind: self.kind,
            payload,
            source_id: self.source_id,
            source_sn: self.source_sn,
            timestamp: self.timestamp,
        }
    }
}

} // verus!
