use vstd::prelude::*;

verus! {

/// A stage of an order's path whose latency is measured.
#[derive(Debug, Clone, Copy, PartialEq, Eq, Hash, Structural)]
pub enum Stage {
    IngressToMatch,
    MatchToAck,
    EndToEnd,
}

impl Stage {
    /// The name a stage is reported under.
    pub fn name(self) -> (r: &'static str)
        ensures
            r@ == match self {
                Stage::IngressToMatch => "ingress_to_match"@,
                Stage::MatchToAck => "match_to_ack"@,
                Stage::EndToEnd => "end_to_end"@,
            },
    {
        match self {
            Stage::IngressToMatch => "ingress_to_match",
            Stage::MatchToAck => "match_to_ack",
            Stage::EndToEnd => "end_to_end",
        }
    }
}

} // verus!
