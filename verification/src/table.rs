//! The membership table: the authoritative in-memory set of known
//! members, with the mutation rules that keep it consistent.
//!
//! The table holds at most one entry per address. Competing status
//! claims about the same address are ordered by the incarnation
//! tie-break rule [`claim_supersedes`].

use vstd::prelude::*;

use crate::member::MemberView;
use crate::member::SerfMember;
use crate::member::SerfStatus;
use crate::member::claim_supersedes;
use crate::member::status_rank;

verus! {

/// The membership table, owned and mutated only by the coordinator.
#[derive(Debug)]
pub struct SerfState {
    pub members: Vec<SerfMember>,
}

impl View for SerfState {
    type V = Seq<MemberView>;

    open spec fn view(&self) -> Seq<MemberView> {
        Seq::new(self.members@.len(), |i: int| self.members@[i]@)
    }
}

/// Index of the first entry for address `a`, if any.
pub open spec fn spec_find(s: Seq<MemberView>, a: Seq<char>) -> Option<int>
    decreases s.len(),
{
    if s.len() == 0 {
        None
    } else if s[0].addr == a {
        Some(0int)
    } else {
        match spec_find(s.drop_first(), a) {
            None => None,
            Some(i) => Some(i + 1),
        }
    }
}

/// What `spec_find` returns: the first index whose entry has address `a`,
/// or `None` when no entry has it.
pub proof fn lemma_spec_find(s: Seq<MemberView>, a: Seq<char>)
    ensures
        match spec_find(s, a) {
            None => forall|i: int| 0 <= i < s.len() ==> s[i].addr != a,
            Some(i) => 0 <= i < s.len() && s[i].addr == a && (forall|j: int|
                0 <= j < i ==> s[j].addr != a),
        },
    decreases s.len(),
{
    if s.len() > 0 && s[0].addr != a {
        lemma_spec_find(s.drop_first(), a);
        match spec_find(s.drop_first(), a) {
            None => {
                assert forall|i: int| 0 <= i < s.len() implies s[i].addr != a by {
                    if i > 0 {
                        assert(s.drop_first()[i - 1] == s[i]);
                    }
                }
            },
            Some(i) => {
                assert(s.drop_first()[i] == s[i + 1]);
                assert forall|j: int| 0 <= j < i + 1 implies s[j].addr != a by {
                    if j > 0 {
                        assert(s.drop_first()[j - 1] == s[j]);
                    }
                }
            },
        }
    }
}

/// The table's mutation rule, as a mathematical function: insert a
/// record for an unknown address; otherwise replace the existing entry
/// exactly when the new claim supersedes it.
pub open spec fn spec_upsert(s: Seq<MemberView>, m: MemberView) -> Seq<MemberView> {
    match spec_find(s, m.addr) {
        None => s.push(m),
        Some(i) => if claim_supersedes(m, s[i]) {
            s.update(i, m)
        } else {
            s
        },
    }
}

/// Well-formedness: at most one entry per address.
pub open spec fn unique_addrs(s: Seq<MemberView>) -> bool {
    forall|i: int, j: int| 0 <= i < j < s.len() ==> s[i].addr != s[j].addr
}

/// `mark_suspect` as a mathematical function: an Up entry for `a` turns
/// Suspect; a Suspect, Down or missing entry is left alone.
pub open spec fn spec_mark_suspect(s: Seq<MemberView>, a: Seq<char>) -> Seq<MemberView> {
    match spec_find(s, a) {
        None => s,
        Some(i) => if s[i].status == SerfStatus::Up {
            s.update(
                i,
                MemberView {
                    addr: s[i].addr,
                    status: SerfStatus::Suspect,
                    incarnation: s[i].incarnation,
                    labels: s[i].labels,
                },
            )
        } else {
            s
        },
    }
}

/// `mark_dead` as a mathematical function: an entry for `a` that is not
/// already Down turns Down; a Down or missing entry is left alone.
pub open spec fn spec_mark_dead(s: Seq<MemberView>, a: Seq<char>) -> Seq<MemberView> {
    match spec_find(s, a) {
        None => s,
        Some(i) => if s[i].status != SerfStatus::Down {
            s.update(
                i,
                MemberView {
                    addr: s[i].addr,
                    status: SerfStatus::Down,
                    incarnation: s[i].incarnation,
                    labels: s[i].labels,
                },
            )
        } else {
            s
        },
    }
}

/// `mark_alive` as a mathematical function: a Suspect entry for `a`
/// returns to Up (a refutation at the same incarnation); an Up, Down or
/// missing entry is left alone.
pub open spec fn spec_mark_alive(s: Seq<MemberView>, a: Seq<char>) -> Seq<MemberView> {
    match spec_find(s, a) {
        None => s,
        Some(i) => if s[i].status == SerfStatus::Suspect {
            s.update(
                i,
                MemberView {
                    addr: s[i].addr,
                    status: SerfStatus::Up,
                    incarnation: s[i].incarnation,
                    labels: s[i].labels,
                },
            )
        } else {
            s
        },
    }
}

/// `remove_member` as a mathematical function: the entry for `a` leaves
/// the table; a missing entry is left alone.
pub open spec fn spec_remove(s: Seq<MemberView>, a: Seq<char>) -> Seq<MemberView> {
    match spec_find(s, a) {
        None => s,
        Some(i) => s.remove(i),
    }
}

/// Addresses eligible as probe targets: members that are Up and are not
/// the local agent, in table order.
pub open spec fn eligible_targets(s: Seq<MemberView>, me: Seq<char>) -> Seq<Seq<char>>
    decreases s.len(),
{
    if s.len() == 0 {
        Seq::empty()
    } else {
        let rest = eligible_targets(s.drop_last(), me);
        if s.last().status == SerfStatus::Up && s.last().addr != me {
            rest.push(s.last().addr)
        } else {
            rest
        }
    }
}

/// Every eligible target is the address of an Up entry other than the
/// local agent.
pub proof fn lemma_eligible_targets(s: Seq<MemberView>, me: Seq<char>)
    ensures
        forall|k: int|
            0 <= k < eligible_targets(s, me).len() ==> exists|i: int|
                0 <= i < s.len() && s[i].addr == #[trigger] eligible_targets(s, me)[k]
                    && s[i].status == SerfStatus::Up && s[i].addr != me,
    decreases s.len(),
{
    if s.len() > 0 {
        lemma_eligible_targets(s.drop_last(), me);
        let es = eligible_targets(s, me);
        let rest = eligible_targets(s.drop_last(), me);
        assert forall|k: int| 0 <= k < es.len() implies exists|i: int|
            0 <= i < s.len() && s[i].addr == #[trigger] es[k] && s[i].status == SerfStatus::Up
                && s[i].addr != me by {
            if k < rest.len() {
                let i = choose|i: int|
                    0 <= i < s.drop_last().len() && s.drop_last()[i].addr == rest[k]
                        && s.drop_last()[i].status == SerfStatus::Up && s.drop_last()[i].addr
                        != me;
                assert(s[i].addr == es[k] && s[i].status == SerfStatus::Up && s[i].addr != me);
            } else {
                assert(s[s.len() - 1].addr == es[k]);
            }
        }
    }
}

impl SerfState {
    /// An empty table.
    pub fn new() -> (r: SerfState)
        ensures
            r@ == Seq::<MemberView>::empty(),
            unique_addrs(r@),
    {
        let r = SerfState { members: Vec::new() };
        proof {
            assert(r@ =~= Seq::<MemberView>::empty());
        }
        r
    }

    /// Index of the entry for `addr`, if one exists.
    pub fn find_index(&self, addr: &String) -> (r: Option<usize>)
        ensures
            r matches Some(i) ==> spec_find(self@, addr@) == Some(i as int),
            r is None ==> spec_find(self@, addr@) is None,
    {
        let mut i: usize = 0;
        while i < self.members.len()
            invariant
                i <= self.members.len(),
                forall|j: int| 0 <= j < i ==> self@[j].addr != addr@,
            decreases self.members.len() - i,
        {
            if self.members[i].addr == *addr {
                proof {
                    lemma_spec_find(self@, addr@);
                    assert(self@[i as int].addr == addr@);
                    match spec_find(self@, addr@) {
                        None => {
                            assert(self@[i as int].addr != addr@);
                        },
                        Some(k) => {
                            if k < i as int {
                                assert(self@[k].addr != addr@);
                            }
                            if k > i as int {
                                assert(self@[i as int].addr != addr@);
                            }
                        },
                    }
                }
                return Some(i);
            }
            i = i + 1;
        }
        proof {
            lemma_spec_find(self@, addr@);
            match spec_find(self@, addr@) {
                None => {},
                Some(k) => {
                    assert(self@[k].addr != addr@);
                },
            }
        }
        None
    }

    /// Apply one membership claim: insert if the address is unknown,
    /// otherwise overwrite exactly when the claim supersedes the current
    /// entry under the incarnation tie-break. Returns whether the table
    /// changed.
    pub fn upsert(&mut self, m: SerfMember) -> (changed: bool)
        requires
            unique_addrs(old(self)@),
        ensures
            final(self)@ == spec_upsert(old(self)@, m@),
            unique_addrs(final(self)@),
            changed <==> final(self)@ != old(self)@,
            changed <==> (spec_find(old(self)@, m@.addr) matches Some(i) ==> claim_supersedes(
                m@,
                old(self)@[i],
            )),
    {
        proof {
            lemma_spec_find(self@, m@.addr);
        }
        let ghost s0 = self@;
        match self.find_index(&m.addr) {
            None => {
                self.members.push(m);
                proof {
                    assert(self@ =~= s0.push(m@));
                    assert(self@ != s0) by {
                        assert(self@.len() != s0.len());
                    }
                }
                true
            },
            Some(i) => {
                let cur = &self.members[i];
                let supersedes = if m.incarnation > cur.incarnation {
                    true
                } else if m.incarnation == cur.incarnation {
                    let new_rank: u8 = match m.status {
                        SerfStatus::Up => 0,
                        SerfStatus::Suspect => 1,
                        SerfStatus::Down => 2,
                    };
                    let cur_rank: u8 = match cur.status {
                        SerfStatus::Up => 0,
                        SerfStatus::Suspect => 1,
                        SerfStatus::Down => 2,
                    };
                    new_rank > cur_rank || (matches!(m.status, SerfStatus::Up) && matches!(
                        cur.status,
                        SerfStatus::Suspect,
                    ))
                } else {
                    false
                };
                if supersedes {
                    let ghost mv = m@;
                    self.members.set(i, m);
                    proof {
                        assert(self@ =~= s0.update(i as int, mv));
                        assert(claim_supersedes(mv, s0[i as int]));
                        assert(self@[i as int] != s0[i as int]) by {
                            if mv.incarnation == s0[i as int].incarnation {
                                assert(mv.status != s0[i as int].status);
                            }
                        }
                        assert(self@ != s0);
                    }
                    true
                } else {
                    proof {
                        assert(!claim_supersedes(m@, s0[i as int]));
                    }
                    false
                }
            },
        }
    }

    /// Turn an Up member Suspect; no-op if the member is unknown or
    /// already Suspect or Down.
    pub fn mark_suspect(&mut self, addr: &String)
        ensures
            final(self)@ == spec_mark_suspect(old(self)@, addr@),
            unique_addrs(old(self)@) ==> unique_addrs(final(self)@),
    {
        let ghost s0 = self@;
        match self.find_index(addr) {
            None => {},
            Some(i) => {
                proof {
                    lemma_spec_find(s0, addr@);
                }
                if matches!(self.members[i].status, SerfStatus::Up) {
                    let old_m = self.members[i].clone();
                    let m = SerfMember { status: SerfStatus::Suspect, ..old_m };
                    self.members.set(i, m);
                    proof {
                        assert(self@ =~= s0.update(
                            i as int,
                            MemberView {
                                addr: s0[i as int].addr,
                                status: SerfStatus::Suspect,
                                incarnation: s0[i as int].incarnation,
                                labels: s0[i as int].labels,
                            },
                        ));
                    }
                }
            },
        }
    }

    /// Turn a member Down; no-op if the member is unknown or already
    /// Down.
    pub fn mark_dead(&mut self, addr: &String)
        ensures
            final(self)@ == spec_mark_dead(old(self)@, addr@),
            unique_addrs(old(self)@) ==> unique_addrs(final(self)@),
    {
        let ghost s0 = self@;
        match self.find_index(addr) {
            None => {},
            Some(i) => {
                proof {
                    lemma_spec_find(s0, addr@);
                }
                if !matches!(self.members[i].status, SerfStatus::Down) {
                    let old_m = self.members[i].clone();
                    let m = SerfMember { status: SerfStatus::Down, ..old_m };
                    self.members.set(i, m);
                    proof {
                        assert(self@ =~= s0.update(
                            i as int,
                            MemberView {
                                addr: s0[i as int].addr,
                                status: SerfStatus::Down,
                                incarnation: s0[i as int].incarnation,
                                labels: s0[i as int].labels,
                            },
                        ));
                    }
                }
            },
        }
    }

    /// Return a Suspect member to Up: a refutation by fresh evidence of
    /// liveness; no-op if the member is unknown, Up or Down.
    pub fn mark_alive(&mut self, addr: &String)
        ensures
            final(self)@ == spec_mark_alive(old(self)@, addr@),
            unique_addrs(old(self)@) ==> unique_addrs(final(self)@),
    {
        let ghost s0 = self@;
        match self.find_index(addr) {
            None => {},
            Some(i) => {
                proof {
                    lemma_spec_find(s0, addr@);
                }
                if matches!(self.members[i].status, SerfStatus::Suspect) {
                    let old_m = self.members[i].clone();
                    let m = SerfMember { status: SerfStatus::Up, ..old_m };
                    self.members.set(i, m);
                    proof {
                        assert(self@ =~= s0.update(
                            i as int,
                            MemberView {
                                addr: s0[i as int].addr,
                                status: SerfStatus::Up,
                                incarnation: s0[i as int].incarnation,
                                labels: s0[i as int].labels,
                            },
                        ));
                    }
                }
            },
        }
    }

    /// Evict a member from the table (a tombstone past its retention
    /// window); no-op if the member is unknown.
    pub fn remove_member(&mut self, addr: &String)
        ensures
            final(self)@ == spec_remove(old(self)@, addr@),
            unique_addrs(old(self)@) ==> unique_addrs(final(self)@),
    {
        let ghost s0 = self@;
        match self.find_index(addr) {
            None => {},
            Some(i) => {
                proof {
                    lemma_spec_find(s0, addr@);
                }
                self.members.remove(i);
                proof {
                    assert(self@ =~= s0.remove(i as int));
                    if unique_addrs(s0) {
                        assert forall|x: int, y: int|
                            0 <= x < y < self@.len() implies self@[x].addr != self@[y].addr by {
                            let xo = if x < i as int { x } else { x + 1 };
                            let yo = if y < i as int { y } else { y + 1 };
                            assert(self@[x] == s0[xo] && self@[y] == s0[yo]);
                        }
                    }
                }
            },
        }
    }

    /// Read-only copy of the table, for building outbound piggyback
    /// payloads.
    pub fn snapshot(&self) -> (r: Vec<SerfMember>)
        ensures
            r@.len() == self@.len(),
            forall|i: int| 0 <= i < r@.len() ==> (#[trigger] r@[i])@ == self@[i],
    {
        let mut r: Vec<SerfMember> = Vec::new();
        let mut i: usize = 0;
        while i < self.members.len()
            invariant
                i <= self.members.len(),
                r@.len() == i as int,
                forall|j: int| 0 <= j < i ==> (#[trigger] r@[j])@ == self@[j],
            decreases self.members.len() - i,
        {
            r.push(self.members[i].clone());
            i = i + 1;
        }
        r
    }

    /// Select a probe target among the Up members other than the local
    /// agent, indexed by the caller-supplied random draw `r`: the draw
    /// picks position `r mod n` among the `n` eligible addresses, so a
    /// deterministic draw yields a deterministic selection.
    pub fn random_probe_target(&self, self_addr: &String, r: u64) -> (t: Option<String>)
        ensures
            t is None <==> eligible_targets(self@, self_addr@).len() == 0,
            t matches Some(a) ==> {
                let es = eligible_targets(self@, self_addr@);
                &&& a@ == es[r as int % es.len() as int]
                &&& exists|i: int|
                    0 <= i < self@.len() && self@[i].addr == a@ && self@[i].status
                        == SerfStatus::Up && self@[i].addr != self_addr@
            },
    {
        let ghost es = eligible_targets(self@, self_addr@);
        let mut targets: Vec<String> = Vec::new();
        let mut i: usize = 0;
        proof {
            assert(self@.subrange(0, 0) =~= Seq::<MemberView>::empty());
        }
        while i < self.members.len()
            invariant
                i <= self.members.len(),
                targets@.len() <= i as int,
                Seq::new(targets@.len(), |k: int| targets@[k]@) =~= eligible_targets(
                    self@.subrange(0, i as int),
                    self_addr@,
                ),
            decreases self.members.len() - i,
        {
            let ghost pre = self@.subrange(0, i as int);
            let ghost post = self@.subrange(0, i as int + 1);
            proof {
                assert(post.drop_last() =~= pre);
                assert(post.last() == self@[i as int]);
            }
            let m = &self.members[i];
            if matches!(m.status, SerfStatus::Up) && !(m.addr == *self_addr) {
                targets.push(m.addr.clone());
            }
            proof {
                assert(Seq::new(targets@.len(), |k: int| targets@[k]@) =~= eligible_targets(
                    post,
                    self_addr@,
                ));
            }
            i = i + 1;
        }
        proof {
            assert(self@.subrange(0, self@.len() as int) =~= self@);
        }
        if targets.len() == 0 {
            None
        } else {
            let idx = (r % (targets.len() as u64)) as usize;
            let a = targets[idx].clone();
            proof {
                lemma_eligible_targets(self@, self_addr@);
                assert(a@ == es[idx as int]);
            }
            Some(a)
        }
    }
}

} // verus!

verus! {

/// Fold a sequence of claims into the table, oldest first.
pub open spec fn apply_claims(s: Seq<MemberView>, cs: Seq<MemberView>) -> Seq<MemberView>
    decreases cs.len(),
{
    if cs.len() == 0 {
        s
    } else {
        apply_claims(spec_upsert(s, cs[0]), cs.drop_first())
    }
}

/// The greatest incarnation among a sequence of claims.
pub open spec fn max_inc(cs: Seq<MemberView>) -> int
    decreases cs.len(),
{
    if cs.len() == 0 {
        0
    } else {
        let r = max_inc(cs.drop_last());
        if cs.last().incarnation as int > r {
            cs.last().incarnation as int
        } else {
            r
        }
    }
}

/// The highest status rank among claims of incarnation `v`, or -1 when
/// no claim has that incarnation.
pub open spec fn best_rank_at(cs: Seq<MemberView>, v: int) -> int
    decreases cs.len(),
{
    if cs.len() == 0 {
        -1
    } else {
        let r = best_rank_at(cs.drop_last(), v);
        if cs.last().incarnation as int == v && status_rank(cs.last().status) > r {
            status_rank(cs.last().status)
        } else {
            r
        }
    }
}

/// No later Up claim shares an incarnation with an earlier Suspect
/// claim (such a pair is a self-refutation, which deliberately
/// downgrades the status).
pub open spec fn no_refutation(cs: Seq<MemberView>) -> bool {
    forall|i: int, j: int|
        0 <= i < j < cs.len() && (#[trigger] cs[i]).status == SerfStatus::Suspect && (
        #[trigger] cs[j]).status == SerfStatus::Up ==> cs[i].incarnation != cs[j].incarnation
}

pub proof fn lemma_apply_push(s: Seq<MemberView>, cs: Seq<MemberView>, c: MemberView)
    ensures
        apply_claims(s, cs.push(c)) == spec_upsert(apply_claims(s, cs), c),
    decreases cs.len(),
{
    if cs.len() == 0 {
        assert(cs.push(c)[0] == c);
        assert(cs.push(c).drop_first() =~= Seq::<MemberView>::empty());
        assert(apply_claims(spec_upsert(s, c), Seq::<MemberView>::empty()) == spec_upsert(s, c));
    } else {
        assert(cs.push(c)[0] == cs[0]);
        assert(cs.push(c).drop_first() =~= cs.drop_first().push(c));
        lemma_apply_push(spec_upsert(s, cs[0]), cs.drop_first(), c);
    }
}

pub proof fn lemma_max_inc_bound(cs: Seq<MemberView>)
    ensures
        forall|i: int| 0 <= i < cs.len() ==> (#[trigger] cs[i]).incarnation as int <= max_inc(cs),
    decreases cs.len(),
{
    if cs.len() > 0 {
        lemma_max_inc_bound(cs.drop_last());
        assert forall|i: int|
            0 <= i < cs.len() implies (#[trigger] cs[i]).incarnation as int <= max_inc(cs) by {
            if i < cs.len() - 1 {
                assert(cs.drop_last()[i] == cs[i]);
            }
        }
    }
}

pub proof fn lemma_best_rank_witness(cs: Seq<MemberView>, v: int)
    requires
        best_rank_at(cs, v) >= 0,
    ensures
        exists|j: int|
            0 <= j < cs.len() && (#[trigger] cs[j]).incarnation as int == v && status_rank(
                cs[j].status,
            ) == best_rank_at(cs, v),
    decreases cs.len(),
{
    if cs.len() > 0 {
        let r = best_rank_at(cs.drop_last(), v);
        if cs.last().incarnation as int == v && status_rank(cs.last().status) > r {
            assert(cs[cs.len() - 1].incarnation as int == v && status_rank(
                cs[cs.len() - 1].status,
            ) == best_rank_at(cs, v));
        } else {
            lemma_best_rank_witness(cs.drop_last(), v);
            let j = choose|j: int|
                0 <= j < cs.drop_last().len() && (#[trigger] cs.drop_last()[j]).incarnation as int
                    == v && status_rank(cs.drop_last()[j].status) == best_rank_at(
                    cs.drop_last(),
                    v,
                );
            assert(cs[j] == cs.drop_last()[j]);
            assert(cs[j].incarnation as int == v && status_rank(cs[j].status) == best_rank_at(
                cs,
                v,
            ));
        }
    }
}

/// Incarnation monotonicity: starting from a table without the address,
/// after any refutation-free sequence of claims for one address, the
/// entry carries the greatest incarnation seen, with the highest-rank
/// status (Down > Suspect > Up) among the claims of that incarnation.
pub proof fn lemma_incarnation_monotonic(s: Seq<MemberView>, cs: Seq<MemberView>, a: Seq<char>)
    requires
        cs.len() > 0,
        forall|i: int| 0 <= i < cs.len() ==> (#[trigger] cs[i]).addr == a,
        spec_find(s, a) is None,
        no_refutation(cs),
    ensures
        ({
            let t = apply_claims(s, cs);
            match spec_find(t, a) {
                None => false,
                Some(i) => 0 <= i < t.len() && t[i].addr == a && t[i].incarnation as int
                    == max_inc(cs) && status_rank(t[i].status) == best_rank_at(cs, max_inc(cs)),
            }
        }),
    decreases cs.len(),
{
    lemma_spec_find(s, a);
    if cs.len() == 1 {
        let c = cs[0];
        assert(cs.drop_first() =~= Seq::<MemberView>::empty());
        assert(apply_claims(spec_upsert(s, c), Seq::<MemberView>::empty()) == spec_upsert(s, c));
        assert(apply_claims(s, cs) == spec_upsert(s, c));
        let t = s.push(c);
        assert(spec_upsert(s, c) == t);
        lemma_spec_find(t, a);
        match spec_find(t, a) {
            None => {
                assert(t[s.len() as int].addr != a);
            },
            Some(i) => {
                if i < s.len() {
                    assert(s[i] == t[i]);
                    assert(s[i].addr != a);
                }
                assert(i == s.len());
                assert(cs.drop_last() =~= Seq::<MemberView>::empty());
                assert(max_inc(Seq::<MemberView>::empty()) == 0);
                assert(best_rank_at(Seq::<MemberView>::empty(), max_inc(cs)) == -1);
                assert(cs.last() == c);
                assert(max_inc(cs) == c.incarnation as int);
                assert(best_rank_at(cs, max_inc(cs)) == status_rank(c.status));
            },
        }
    } else {
        let cs0 = cs.drop_last();
        let c = cs.last();
        assert(cs0.push(c) =~= cs);
        assert forall|i: int| 0 <= i < cs0.len() implies (#[trigger] cs0[i]).addr == a by {
            assert(cs0[i] == cs[i]);
        }
        assert forall|i: int, j: int|
            0 <= i < j < cs0.len() && (#[trigger] cs0[i]).status == SerfStatus::Suspect && (
            #[trigger] cs0[j]).status == SerfStatus::Up implies cs0[i].incarnation
            != cs0[j].incarnation by {
            assert(cs0[i] == cs[i] && cs0[j] == cs[j]);
        }
        lemma_incarnation_monotonic(s, cs0, a);
        lemma_apply_push(s, cs0, c);
        let t0 = apply_claims(s, cs0);
        let t = apply_claims(s, cs);
        assert(t == spec_upsert(t0, c));
        let v0 = max_inc(cs0);
        match spec_find(t0, a) {
            None => {
                assert(false);
            },
            Some(i) => {
                let e = t0[i];
                lemma_max_inc_bound(cs0);
                if claim_supersedes(c, e) {
                    assert(t == t0.update(i, c));
                    lemma_spec_find(t, a);
                    lemma_spec_find(t0, a);
                    match spec_find(t, a) {
                        None => {
                            assert(t[i].addr != a);
                        },
                        Some(i2) => {
                            if i2 < i {
                                assert(t[i2] == t0[i2]);
                                assert(t0[i2].addr != a);
                            }
                            if i2 > i {
                                assert(t[i].addr != a);
                            }
                            assert(i2 == i);
                            if c.incarnation > e.incarnation {
                                assert(max_inc(cs) == c.incarnation as int);
                                if best_rank_at(cs0, c.incarnation as int) >= 0 {
                                    lemma_best_rank_witness(cs0, c.incarnation as int);
                                    let j = choose|j: int|
                                        0 <= j < cs0.len() && (#[trigger] cs0[j]).incarnation as int
                                            == c.incarnation as int && status_rank(cs0[j].status)
                                            == best_rank_at(cs0, c.incarnation as int);
                                    assert(cs0[j].incarnation as int <= v0);
                                    assert(false);
                                }
                                assert(best_rank_at(cs, max_inc(cs)) == status_rank(c.status));
                            } else {
                                assert(c.incarnation == e.incarnation);
                                assert(max_inc(cs) == v0);
                                if status_rank(c.status) > status_rank(e.status) {
                                    assert(best_rank_at(cs, v0) == status_rank(c.status));
                                } else {
                                    assert(c.status == SerfStatus::Up && e.status
                                        == SerfStatus::Suspect);
                                    lemma_best_rank_witness(cs0, v0);
                                    let j = choose|j: int|
                                        0 <= j < cs0.len() && (#[trigger] cs0[j]).incarnation as int
                                            == v0 && status_rank(cs0[j].status) == best_rank_at(
                                            cs0,
                                            v0,
                                        );
                                    assert(cs0[j].status == SerfStatus::Suspect);
                                    assert(cs[j] == cs0[j]);
                                    assert(cs[cs.len() - 1] == c);
                                    assert(cs[j].incarnation != cs[cs.len() - 1].incarnation);
                                    assert(false);
                                }
                            }
                        },
                    }
                } else {
                    assert(t == t0);
                    assert(!(c.incarnation > e.incarnation));
                    assert(c.incarnation as int <= v0);
                    if c.incarnation as int == v0 {
                        assert(!(status_rank(c.status) > status_rank(e.status)));
                        assert(best_rank_at(cs, v0) == best_rank_at(cs0, v0));
                    } else {
                        assert(best_rank_at(cs, v0) == best_rank_at(cs0, v0));
                    }
                    assert(max_inc(cs) == v0);
                }
            },
        }
    }
}

} // verus!

verus! {

/// One gossip application never loses knowledge: after a claim is
/// applied, the table knows the claim's address, still knows every
/// address it knew before, and no entry's incarnation has decreased.
/// Repeated over the join and update traffic, this is what lets every
/// agent's table grow toward the full membership.
pub proof fn lemma_upsert_preserves_knowledge(s: Seq<MemberView>, m: MemberView)
    ensures
        spec_find(spec_upsert(s, m), m.addr) is Some,
        forall|a: Seq<char>|
            #[trigger] spec_find(s, a) is Some ==> spec_find(spec_upsert(s, m), a) is Some,
        spec_upsert(s, m).len() >= s.len(),
        forall|i: int|
            0 <= i < s.len() ==> (#[trigger] spec_upsert(s, m)[i]).incarnation >= s[i].incarnation,
{
    let t = spec_upsert(s, m);
    lemma_spec_find(s, m.addr);
    match spec_find(s, m.addr) {
        None => {
            assert(t == s.push(m));
            lemma_spec_find(t, m.addr);
            match spec_find(t, m.addr) {
                None => {
                    assert(t[t.len() - 1].addr == m.addr);
                    assert(false);
                },
                Some(_) => {},
            }
        },
        Some(k) => {
            if claim_supersedes(m, s[k]) {
                assert(t == s.update(k, m));
                lemma_spec_find(t, m.addr);
                match spec_find(t, m.addr) {
                    None => {
                        assert(t[k].addr == m.addr);
                        assert(false);
                    },
                    Some(_) => {},
                }
            }
        },
    }
    assert forall|a: Seq<char>| #[trigger] spec_find(s, a) is Some implies spec_find(
        t,
        a,
    ) is Some by {
        lemma_spec_find(s, a);
        match spec_find(s, a) {
            None => {},
            Some(i) => {
                lemma_spec_find(t, a);
                match spec_find(t, a) {
                    None => {
                        match spec_find(s, m.addr) {
                            None => {
                                assert(t[i].addr == a);
                            },
                            Some(k) => {
                                if claim_supersedes(m, s[k]) {
                                    if i == k {
                                        assert(s[k].addr == m.addr);
                                        assert(t[k].addr == a);
                                    } else {
                                        assert(t[i].addr == a);
                                    }
                                } else {
                                    assert(t[i].addr == a);
                                }
                            },
                        }
                        assert(false);
                    },
                    Some(_) => {},
                }
            },
        }
    }
}

} // verus!
