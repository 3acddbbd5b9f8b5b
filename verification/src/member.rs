//! The member record: one known participant of the cluster, with its
//! address, liveness status, gossip metadata and incarnation counter.

use vstd::prelude::*;

verus! {

/// Liveness status of a member, as seen by the local agent.
#[derive(Clone, Copy, PartialEq, Eq, Structural, Debug)]
pub enum SerfStatus {
    Up,
    Suspect,
    Down,
}

/// One known participant. The address is the unique identifier within a
/// membership table; the incarnation counter orders competing status
/// claims about the same member.
#[derive(Debug)]
pub struct SerfMember {
    pub addr: String,
    pub status: SerfStatus,
    pub incarnation: u64,
    /// Opaque metadata attached at join time. The keys of this mapping
    /// are conventionally unique, but the engine never reads a label by
    /// key — it only carries and gossips the list whole — so key
    /// uniqueness is deliberately not enforced as an invariant.
    pub labels: Vec<(String, String)>,
}

/// Mathematical model of a member record.
#[verifier::ext_equal]
pub ghost struct MemberView {
    pub addr: Seq<char>,
    pub status: SerfStatus,
    pub incarnation: u64,
    pub labels: Seq<(Seq<char>, Seq<char>)>,
}

impl View for SerfMember {
    type V = MemberView;

    open spec fn view(&self) -> MemberView {
        MemberView {
            addr: self.addr@,
            status: self.status,
            incarnation: self.incarnation,
            labels: Seq::new(self.labels@.len(), |i: int| (self.labels@[i].0@, self.labels@[i].1@)),
        }
    }
}

/// Total order on statuses used by the incarnation tie-break: among
/// claims of equal incarnation, Down > Suspect > Up.
pub open spec fn status_rank(s: SerfStatus) -> int {
    match s {
        SerfStatus::Up => 0,
        SerfStatus::Suspect => 1,
        SerfStatus::Down => 2,
    }
}

/// The table's overwrite rule: a claim with strictly greater incarnation
/// wins outright; at equal incarnation the status may only move forward
/// (Up -> Suspect -> Down), except that an Up claim at the same
/// incarnation refutes a Suspect entry (self-refutation).
pub open spec fn claim_supersedes(new: MemberView, old: MemberView) -> bool {
    ||| new.incarnation > old.incarnation
    ||| (new.incarnation == old.incarnation && status_rank(new.status) > status_rank(old.status))
    ||| (new.incarnation == old.incarnation && new.status == SerfStatus::Up && old.status
        == SerfStatus::Suspect)
}

impl SerfMember {
    /// Build a member record from its parts.
    pub fn new(addr: String, status: SerfStatus, incarnation: u64, labels: Vec<(String, String)>) -> (r: SerfMember)
        ensures
            r@ == (MemberView {
                addr: addr@,
                status,
                incarnation,
                labels: Seq::new(labels@.len(), |i: int| (labels@[i].0@, labels@[i].1@)),
            }),
    {
        let r = SerfMember { addr, status, incarnation, labels };
        proof {
            assert(r@ =~= MemberView {
                addr: r.addr@,
                status: r.status,
                incarnation: r.incarnation,
                labels: Seq::new(r.labels@.len(), |i: int| (r.labels@[i].0@, r.labels@[i].1@)),
            });
        }
        r
    }
}

impl Clone for SerfMember {
    fn clone(&self) -> (r: Self)
        ensures
            r@ == self@,
    {
        let mut labels: Vec<(String, String)> = Vec::new();
        let mut i: usize = 0;
        while i < self.labels.len()
            invariant
                i <= self.labels.len(),
                labels@.len() == i as int,
                forall|j: int|
                    0 <= j < i ==> (#[trigger] labels@[j]).0@ == self.labels@[j].0@
                        && labels@[j].1@ == self.labels@[j].1@,
            decreases self.labels.len() - i,
        {
            let pair = &self.labels[i];
            labels.push((pair.0.clone(), pair.1.clone()));
            i = i + 1;
        }
        let r = SerfMember {
            addr: self.addr.clone(),
            status: self.status,
            incarnation: self.incarnation,
            labels,
        };
        proof {
            assert(r@.labels =~= self@.labels);
            assert(r@ =~= self@);
        }
        r
    }
}

} // verus!
