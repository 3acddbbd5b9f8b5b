//! The dissemination engine: recent membership changes are queued and a
//! bounded number of them is piggybacked onto every outgoing message,
//! each update retransmitted at most a fixed number of times.

use vstd::prelude::*;

use crate::member::MemberView;
use crate::member::SerfMember;

verus! {

/// How many times one update may be piggybacked before it is dropped
/// from the queue.
pub const RETRANSMIT_LIMIT: u32 = 3;

/// How many updates one outgoing message may carry.
pub const PIGGYBACK_MAX: usize = 4;

/// One queued update: the member record to gossip and how many more
/// times it may still be sent.
#[derive(Debug)]
pub struct UpdateEntry {
    pub member: SerfMember,
    pub transmits_left: u32,
}

/// Mathematical model of a queued update.
#[verifier::ext_equal]
pub ghost struct UpdateView {
    pub member: MemberView,
    pub transmits_left: u32,
}

impl View for UpdateEntry {
    type V = UpdateView;

    open spec fn view(&self) -> UpdateView {
        UpdateView { member: self.member@, transmits_left: self.transmits_left }
    }
}

/// The dissemination queue, most recently changed first.
#[derive(Debug)]
pub struct UpdateQueue {
    pub entries: Vec<UpdateEntry>,
}

impl View for UpdateQueue {
    type V = Seq<UpdateView>;

    open spec fn view(&self) -> Seq<UpdateView> {
        Seq::new(self.entries@.len(), |i: int| self.entries@[i]@)
    }
}

/// Queue well-formedness: every entry still has between 1 and
/// `RETRANSMIT_LIMIT` transmissions left.
pub open spec fn wf_queue(q: Seq<UpdateView>) -> bool {
    forall|i: int|
        0 <= i < q.len() ==> 1 <= (#[trigger] q[i]).transmits_left <= RETRANSMIT_LIMIT
}

/// Index of the first queued update for address `a`, if any.
pub open spec fn find_update(q: Seq<UpdateView>, a: Seq<char>) -> Option<int>
    decreases q.len(),
{
    if q.len() == 0 {
        None
    } else if q[0].member.addr == a {
        Some(0int)
    } else {
        match find_update(q.drop_first(), a) {
            None => None,
            Some(i) => Some(i + 1),
        }
    }
}

/// What `find_update` returns.
pub proof fn lemma_find_update(q: Seq<UpdateView>, a: Seq<char>)
    ensures
        match find_update(q, a) {
            None => forall|i: int| 0 <= i < q.len() ==> q[i].member.addr != a,
            Some(i) => 0 <= i < q.len() && q[i].member.addr == a && (forall|j: int|
                0 <= j < i ==> q[j].member.addr != a),
        },
    decreases q.len(),
{
    if q.len() > 0 && q[0].member.addr != a {
        lemma_find_update(q.drop_first(), a);
        match find_update(q.drop_first(), a) {
            None => {
                assert forall|i: int| 0 <= i < q.len() implies q[i].member.addr != a by {
                    if i > 0 {
                        assert(q.drop_first()[i - 1] == q[i]);
                    }
                }
            },
            Some(i) => {
                assert(q.drop_first()[i] == q[i + 1]);
                assert forall|j: int| 0 <= j < i + 1 implies q[j].member.addr != a by {
                    if j > 0 {
                        assert(q.drop_first()[j - 1] == q[j]);
                    }
                }
            },
        }
    }
}

/// What recording one change does to the queue: any older entry for
/// the address leaves, and the new record enters at the front with a
/// full retransmission budget.
pub open spec fn spec_enqueue(q: Seq<UpdateView>, m: MemberView) -> Seq<UpdateView> {
    seq![UpdateView { member: m, transmits_left: RETRANSMIT_LIMIT }] + (match find_update(
        q,
        m.addr,
    ) {
        None => q,
        Some(i) => q.remove(i),
    })
}

/// Recording a list of changes, oldest first.
pub open spec fn spec_enqueue_all(q: Seq<UpdateView>, ms: Seq<MemberView>) -> Seq<UpdateView>
    decreases ms.len(),
{
    if ms.len() == 0 {
        q
    } else {
        spec_enqueue_all(spec_enqueue(q, ms[0]), ms.drop_first())
    }
}

/// Recording one more change after a list of them.
pub proof fn lemma_enqueue_all_push(q: Seq<UpdateView>, ms: Seq<MemberView>, m: MemberView)
    ensures
        spec_enqueue_all(q, ms.push(m)) == spec_enqueue(spec_enqueue_all(q, ms), m),
    decreases ms.len(),
{
    if ms.len() == 0 {
        assert(ms.push(m)[0] == m);
        assert(ms.push(m).drop_first() =~= Seq::<MemberView>::empty());
        assert(spec_enqueue_all(spec_enqueue(q, m), Seq::<MemberView>::empty()) == spec_enqueue(
            q,
            m,
        ));
    } else {
        assert(ms.push(m)[0] == ms[0]);
        assert(ms.push(m).drop_first() =~= ms.drop_first().push(m));
        lemma_enqueue_all_push(spec_enqueue(q, ms[0]), ms.drop_first(), m);
    }
}

/// Members carried by a queue prefix, in order.
pub open spec fn members_of(q: Seq<UpdateView>) -> Seq<MemberView>
    decreases q.len(),
{
    if q.len() == 0 {
        Seq::empty()
    } else {
        members_of(q.drop_last()).push(q.last().member)
    }
}

/// The queue that remains of a served prefix: each entry decremented,
/// exhausted entries dropped.
pub open spec fn survivors(q: Seq<UpdateView>) -> Seq<UpdateView>
    decreases q.len(),
{
    if q.len() == 0 {
        Seq::empty()
    } else {
        let rest = survivors(q.drop_last());
        if q.last().transmits_left > 1 {
            rest.push(
                UpdateView {
                    member: q.last().member,
                    transmits_left: (q.last().transmits_left - 1) as u32,
                },
            )
        } else {
            rest
        }
    }
}

/// Served entries keep a positive budget: the survivors of a
/// well-formed prefix are themselves well-formed.
pub proof fn lemma_survivors_wf(p: Seq<UpdateView>)
    requires
        wf_queue(p),
    ensures
        wf_queue(survivors(p)),
        survivors(p).len() <= p.len(),
    decreases p.len(),
{
    if p.len() > 0 {
        assert forall|i: int|
            0 <= i < p.drop_last().len() implies 1 <= (#[trigger] p.drop_last()[i]).transmits_left
            <= RETRANSMIT_LIMIT by {
            assert(p.drop_last()[i] == p[i]);
        }
        lemma_survivors_wf(p.drop_last());
        let s = survivors(p);
        assert forall|i: int|
            0 <= i < s.len() implies 1 <= (#[trigger] s[i]).transmits_left <= RETRANSMIT_LIMIT by {
            if i < survivors(p.drop_last()).len() {
                assert(s[i] == survivors(p.drop_last())[i]);
            }
        }
    }
}

impl UpdateQueue {
    /// An empty queue.
    pub fn new() -> (r: UpdateQueue)
        ensures
            r@ == Seq::<UpdateView>::empty(),
            wf_queue(r@),
    {
        let r = UpdateQueue { entries: Vec::new() };
        proof {
            assert(r@ =~= Seq::<UpdateView>::empty());
        }
        r
    }

    /// Record a fresh membership change: any older queued update for the
    /// same address is discarded and the new one enters at the front
    /// with a full retransmission budget.
    pub fn queue_update(&mut self, m: SerfMember)
        requires
            wf_queue(old(self)@),
        ensures
            final(self)@ == spec_enqueue(old(self)@, m@),
            wf_queue(final(self)@),
    {
        let ghost q0 = self@;
        let mut idx: Option<usize> = None;
        let mut i: usize = 0;
        while i < self.entries.len()
            invariant
                i <= self.entries@.len(),
                self@ == q0,
                idx matches Some(k) ==> 0 <= k < i as int && q0[k as int].member.addr == m@.addr
                    && (forall|j: int| 0 <= j < k ==> q0[j].member.addr != m@.addr),
                idx is None ==> forall|j: int| 0 <= j < i ==> q0[j].member.addr != m@.addr,
            decreases self.entries@.len() - i,
        {
            if idx.is_none() && self.entries[i].member.addr == m.addr {
                idx = Some(i);
            }
            i = i + 1;
        }
        proof {
            lemma_find_update(q0, m@.addr);
            match find_update(q0, m@.addr) {
                None => {
                    assert(idx is None) by {
                        match idx {
                            Some(k) => {
                                assert(q0[k as int].member.addr != m@.addr);
                            },
                            None => {},
                        }
                    }
                },
                Some(fi) => {
                    assert(idx is Some) by {
                        if idx is None {
                            assert(q0[fi].member.addr != m@.addr);
                        }
                    }
                },
            }
        }
        match idx {
            None => {},
            Some(k) => {
                proof {
                    lemma_find_update(q0, m@.addr);
                    match find_update(q0, m@.addr) {
                        None => {
                            assert(false);
                        },
                        Some(fi) => {
                            if fi < k as int {
                                assert(q0[fi].member.addr == m@.addr);
                            }
                            assert(fi == k as int);
                        },
                    }
                }
                self.entries.remove(k);
                proof {
                    assert(self@ =~= q0.remove(k as int));
                }
            },
        }
        let ghost q1 = self@;
        self.entries.insert(0, UpdateEntry { member: m, transmits_left: RETRANSMIT_LIMIT });
        proof {
            assert(self@ =~= seq![
                UpdateView { member: m@, transmits_left: RETRANSMIT_LIMIT },
            ] + q1);
        }
    }

    /// Serve the piggyback payload for one outgoing message: the members
    /// of the first `PIGGYBACK_MAX` queued updates, each of which is
    /// then decremented and dropped once its budget is exhausted.
    pub fn take_piggyback(&mut self) -> (out: Vec<SerfMember>)
        requires
            wf_queue(old(self)@),
        ensures
            ({
                let k = if old(self)@.len() < PIGGYBACK_MAX as int {
                    old(self)@.len() as int
                } else {
                    PIGGYBACK_MAX as int
                };
                &&& Seq::new(out@.len(), |i: int| out@[i]@) == members_of(old(self)@.take(k))
                &&& final(self)@ == survivors(old(self)@.take(k)) + old(self)@.skip(k)
                &&& wf_queue(final(self)@)
            }),
    {
        let ghost q0 = self@;
        let k: usize = if self.entries.len() < PIGGYBACK_MAX {
            self.entries.len()
        } else {
            PIGGYBACK_MAX
        };
        let mut out: Vec<SerfMember> = Vec::new();
        let mut rest: Vec<UpdateEntry> = Vec::new();
        let mut i: usize = 0;
        proof {
            assert(q0.take(0) =~= Seq::<UpdateView>::empty());
            assert(Seq::new(out@.len(), |j: int| out@[j]@) =~= members_of(q0.take(0)));
            assert(Seq::new(rest@.len(), |j: int| rest@[j]@) =~= survivors(q0.take(0)));
        }
        while i < k
            invariant
                i <= k,
                k as int == (if q0.len() < PIGGYBACK_MAX as int {
                    q0.len() as int
                } else {
                    PIGGYBACK_MAX as int
                }),
                k <= self.entries@.len(),
                self@ == q0,
                wf_queue(q0),
                Seq::new(out@.len(), |j: int| out@[j]@) =~= members_of(q0.take(i as int)),
                Seq::new(rest@.len(), |j: int| rest@[j]@) =~= survivors(q0.take(i as int)),
            decreases k - i,
        {
            let ghost pre = q0.take(i as int);
            let ghost post = q0.take(i as int + 1);
            proof {
                assert(post.drop_last() =~= pre);
                assert(post.last() == q0[i as int]);
            }
            let e = &self.entries[i];
            out.push(e.member.clone());
            if e.transmits_left > 1 {
                rest.push(
                    UpdateEntry { member: e.member.clone(), transmits_left: e.transmits_left - 1 },
                );
            }
            i = i + 1;
            proof {
                assert(Seq::new(out@.len(), |j: int| out@[j]@) =~= members_of(post));
                assert(Seq::new(rest@.len(), |j: int| rest@[j]@) =~= survivors(post));
            }
        }
        proof {
            assert(q0.subrange(k as int, k as int) =~= Seq::<UpdateView>::empty());
            assert(Seq::new(rest@.len(), |j: int| rest@[j]@) =~= survivors(q0.take(k as int))
                + q0.subrange(k as int, k as int));
        }
        while i < self.entries.len()
            invariant
                k <= i <= self.entries@.len(),
                k as int == (if q0.len() < PIGGYBACK_MAX as int {
                    q0.len() as int
                } else {
                    PIGGYBACK_MAX as int
                }),
                self@ == q0,
                wf_queue(q0),
                Seq::new(rest@.len(), |j: int| rest@[j]@) =~= survivors(q0.take(k as int))
                    + q0.subrange(k as int, i as int),
            decreases self.entries@.len() - i,
        {
            let ghost pre = q0.subrange(k as int, i as int);
            let ghost rest0 = rest@;
            let e = &self.entries[i];
            rest.push(UpdateEntry { member: e.member.clone(), transmits_left: e.transmits_left });
            i = i + 1;
            proof {
                assert(q0.subrange(k as int, i as int) =~= pre.push(q0[i - 1]));
                assert(rest@[rest@.len() - 1]@ == q0[i - 1]);
                assert(Seq::new(rest@.len(), |j: int| rest@[j]@) =~= Seq::new(
                    rest0.len(),
                    |j: int| rest0[j]@,
                ).push(q0[i - 1]));
                assert((survivors(q0.take(k as int)) + pre).push(q0[i - 1]) =~= survivors(
                    q0.take(k as int),
                ) + pre.push(q0[i - 1]));
                assert(Seq::new(rest@.len(), |j: int| rest@[j]@) =~= survivors(q0.take(k as int))
                    + q0.subrange(k as int, i as int));
            }
        }
        self.entries = rest;
        proof {
            assert(q0.subrange(k as int, q0.len() as int) =~= q0.skip(k as int));
            assert(self@ =~= survivors(q0.take(k as int)) + q0.skip(k as int));
            assert(Seq::new(out@.len(), |j: int| out@[j]@) =~= members_of(q0.take(k as int)));
            let p = q0.take(k as int);
            assert forall|j: int|
                0 <= j < p.len() implies 1 <= (#[trigger] p[j]).transmits_left
                <= RETRANSMIT_LIMIT by {
                assert(p[j] == q0[j]);
            }
            lemma_survivors_wf(p);
            assert forall|j: int|
                0 <= j < self@.len() implies 1 <= (#[trigger] self@[j]).transmits_left
                <= RETRANSMIT_LIMIT by {
                if j < survivors(p).len() {
                    assert(self@[j] == survivors(p)[j]);
                } else {
                    assert(self@[j] == q0[j - survivors(p).len() + k]);
                }
            }
        }
        out
    }
}

} // verus!

verus! {

/// Transmission budget the queue still holds for address `a`: the sum
/// of `transmits_left` over its entries for `a`.
pub open spec fn budget_of(q: Seq<UpdateView>, a: Seq<char>) -> int
    decreases q.len(),
{
    if q.len() == 0 {
        0
    } else {
        (if q[0].member.addr == a {
            q[0].transmits_left as int
        } else {
            0
        }) + budget_of(q.drop_first(), a)
    }
}

/// Times address `a` occurs in one piggyback payload.
pub open spec fn sends_of(ms: Seq<MemberView>, a: Seq<char>) -> int
    decreases ms.len(),
{
    if ms.len() == 0 {
        0
    } else {
        (if ms[0].addr == a {
            1int
        } else {
            0
        }) + sends_of(ms.drop_first(), a)
    }
}

/// Times address `a` occurs across a whole run of payloads.
pub open spec fn total_sends(sents: Seq<Seq<MemberView>>, a: Seq<char>) -> int
    decreases sents.len(),
{
    if sents.len() == 0 {
        0
    } else {
        sends_of(sents[0], a) + total_sends(sents.drop_first(), a)
    }
}

/// What one `take_piggyback` call does, as a relation between the queue
/// before, the queue after, and the payload served.
pub open spec fn take_step(q1: Seq<UpdateView>, q2: Seq<UpdateView>, sent: Seq<MemberView>) -> bool {
    let k = if q1.len() < PIGGYBACK_MAX as int {
        q1.len() as int
    } else {
        PIGGYBACK_MAX as int
    };
    sent == members_of(q1.take(k)) && q2 == survivors(q1.take(k)) + q1.skip(k)
}

pub proof fn lemma_budget_concat(x: Seq<UpdateView>, y: Seq<UpdateView>, a: Seq<char>)
    ensures
        budget_of(x + y, a) == budget_of(x, a) + budget_of(y, a),
    decreases x.len(),
{
    if x.len() == 0 {
        assert(x + y =~= y);
    } else {
        assert((x + y).drop_first() =~= x.drop_first() + y);
        assert((x + y)[0] == x[0]);
        lemma_budget_concat(x.drop_first(), y, a);
    }
}

pub proof fn lemma_sends_concat(x: Seq<MemberView>, y: Seq<MemberView>, a: Seq<char>)
    ensures
        sends_of(x + y, a) == sends_of(x, a) + sends_of(y, a),
    decreases x.len(),
{
    if x.len() == 0 {
        assert(x + y =~= y);
    } else {
        assert((x + y).drop_first() =~= x.drop_first() + y);
        assert((x + y)[0] == x[0]);
        lemma_sends_concat(x.drop_first(), y, a);
    }
}

pub proof fn lemma_budget_nonneg(q: Seq<UpdateView>, a: Seq<char>)
    requires
        wf_queue(q),
    ensures
        budget_of(q, a) >= 0,
    decreases q.len(),
{
    if q.len() > 0 {
        assert(1 <= q[0].transmits_left);
        let d = q.drop_first();
        assert forall|i: int|
            0 <= i < d.len() implies 1 <= (#[trigger] d[i]).transmits_left
            <= RETRANSMIT_LIMIT by {
            assert(d[i] == q[i + 1]);
        }
        lemma_budget_nonneg(d, a);
    }
}

/// Serving a prefix spends budget: what the survivors keep plus what the
/// payload carries never exceeds what the prefix held.
pub proof fn lemma_serve_budget(p: Seq<UpdateView>, a: Seq<char>)
    requires
        wf_queue(p),
    ensures
        budget_of(survivors(p), a) + sends_of(members_of(p), a) <= budget_of(p, a),
    decreases p.len(),
{
    if p.len() > 0 {
        let d = p.drop_last();
        assert forall|i: int|
            0 <= i < d.len() implies 1 <= (#[trigger] d[i]).transmits_left
            <= RETRANSMIT_LIMIT by {
            assert(d[i] == p[i]);
        }
        lemma_serve_budget(d, a);
        assert(p =~= d + seq![p.last()]);
        lemma_budget_concat(d, seq![p.last()], a);
        assert(seq![p.last()].drop_first() =~= Seq::<UpdateView>::empty());
        assert(budget_of(Seq::<UpdateView>::empty(), a) == 0);
        assert(budget_of(seq![p.last()], a) == (if p.last().member.addr == a {
            p.last().transmits_left as int
        } else {
            0
        }));
        assert(members_of(p) =~= members_of(d) + seq![p.last().member]);
        lemma_sends_concat(members_of(d), seq![p.last().member], a);
        assert(seq![p.last().member].drop_first() =~= Seq::<MemberView>::empty());
        assert(sends_of(Seq::<MemberView>::empty(), a) == 0);
        assert(sends_of(seq![p.last().member], a) == (if p.last().member.addr == a {
            1int
        } else {
            0
        }));
        if p.last().transmits_left > 1 {
            let surv = UpdateView {
                member: p.last().member,
                transmits_left: (p.last().transmits_left - 1) as u32,
            };
            assert(survivors(p) =~= survivors(d) + seq![surv]);
            lemma_budget_concat(survivors(d), seq![surv], a);
            assert(seq![surv].drop_first() =~= Seq::<UpdateView>::empty());
            assert(budget_of(seq![surv], a) == (if surv.member.addr == a {
                surv.transmits_left as int
            } else {
                0
            }));
        } else {
            assert(survivors(p) =~= survivors(d));
            assert(1 <= p.last().transmits_left);
        }
    }
}

/// One piggyback step spends budget.
pub proof fn lemma_take_step_budget(
    q1: Seq<UpdateView>,
    q2: Seq<UpdateView>,
    sent: Seq<MemberView>,
    a: Seq<char>,
)
    requires
        wf_queue(q1),
        take_step(q1, q2, sent),
    ensures
        budget_of(q2, a) + sends_of(sent, a) <= budget_of(q1, a),
{
    let k = if q1.len() < PIGGYBACK_MAX as int {
        q1.len() as int
    } else {
        PIGGYBACK_MAX as int
    };
    let p = q1.take(k);
    assert forall|i: int|
        0 <= i < p.len() implies 1 <= (#[trigger] p[i]).transmits_left <= RETRANSMIT_LIMIT by {
        assert(p[i] == q1[i]);
    }
    lemma_serve_budget(p, a);
    lemma_budget_concat(survivors(p), q1.skip(k), a);
    assert(q1 =~= p + q1.skip(k));
    lemma_budget_concat(p, q1.skip(k), a);
}

/// Bounded gossip fan: across any run of piggyback steps, one address
/// is served at most as many times as the starting queue's budget for
/// it — in particular at most `RETRANSMIT_LIMIT` times for an update
/// queued once.
pub proof fn lemma_bounded_retransmission(
    states: Seq<Seq<UpdateView>>,
    sents: Seq<Seq<MemberView>>,
    a: Seq<char>,
)
    requires
        states.len() == sents.len() + 1,
        forall|i: int| 0 <= i < states.len() ==> wf_queue(#[trigger] states[i]),
        forall|i: int|
            0 <= i < sents.len() ==> take_step(states[i], states[i + 1], #[trigger] sents[i]),
    ensures
        total_sends(sents, a) + budget_of(states.last(), a) <= budget_of(states[0], a),
        total_sends(sents, a) <= budget_of(states[0], a),
    decreases sents.len(),
{
    if sents.len() == 0 {
        lemma_budget_nonneg(states[0], a);
    } else {
        lemma_take_step_budget(states[0], states[1], sents[0], a);
        let st = states.drop_first();
        let sn = sents.drop_first();
        assert forall|i: int| 0 <= i < st.len() implies wf_queue(#[trigger] st[i]) by {
            assert(st[i] == states[i + 1]);
        }
        assert forall|i: int|
            0 <= i < sn.len() implies take_step(st[i], st[i + 1], #[trigger] sn[i]) by {
            assert(st[i] == states[i + 1] && st[i + 1] == states[i + 2] && sn[i] == sents[i + 1]);
        }
        lemma_bounded_retransmission(st, sn, a);
        assert(st.last() == states.last());
        lemma_budget_nonneg(states.last(), a);
    }
}

/// A queue holding no update for `a` holds no budget for it.
pub proof fn lemma_budget_absent(q: Seq<UpdateView>, a: Seq<char>)
    requires
        forall|i: int| 0 <= i < q.len() ==> (#[trigger] q[i]).member.addr != a,
    ensures
        budget_of(q, a) == 0,
    decreases q.len(),
{
    if q.len() > 0 {
        assert forall|i: int|
            0 <= i < q.drop_first().len() implies (#[trigger] q.drop_first()[i]).member.addr
            != a by {
            assert(q.drop_first()[i] == q[i + 1]);
        }
        lemma_budget_absent(q.drop_first(), a);
    }
}

/// A freshly queued update for an address nothing else mentions starts
/// with exactly the retransmission budget.
pub proof fn lemma_budget_fresh(q: Seq<UpdateView>, m: MemberView)
    requires
        forall|i: int| 0 <= i < q.len() ==> (#[trigger] q[i]).member.addr != m.addr,
    ensures
        budget_of(
            seq![UpdateView { member: m, transmits_left: RETRANSMIT_LIMIT }] + q,
            m.addr,
        ) == RETRANSMIT_LIMIT as int,
{
    lemma_budget_concat(seq![UpdateView { member: m, transmits_left: RETRANSMIT_LIMIT }], q, m.addr);
    lemma_budget_absent(q, m.addr);
    let s = seq![UpdateView { member: m, transmits_left: RETRANSMIT_LIMIT }];
    assert(s.drop_first() =~= Seq::<UpdateView>::empty());
    assert(budget_of(Seq::<UpdateView>::empty(), m.addr) == 0);
    assert(budget_of(s, m.addr) == RETRANSMIT_LIMIT as int);
}

} // verus!
