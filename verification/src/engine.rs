//! The coordinator's decision logic: one [`SerfClient`] per agent holds
//! the membership table, the failure-detector timers and the
//! dissemination queue, and turns each inbound message or timer event
//! into the table mutations and outgoing messages the protocol asks
//! for. The surrounding binary runs the event loop: it decodes
//! datagrams, feeds them here, and sends what comes back.

use vstd::prelude::*;

use crate::gossip::UpdateQueue;
use crate::gossip::members_of;
use crate::gossip::take_step;
use crate::gossip::wf_queue;
use crate::member::MemberView;
use crate::member::SerfMember;
use crate::member::SerfStatus;
use crate::table::SerfState;
use crate::table::eligible_targets;
use crate::table::spec_find;
use crate::table::spec_mark_alive;
use crate::table::spec_mark_suspect;
use crate::table::unique_addrs;
use crate::wire::SerfMessage;
use crate::wire::SerfMessageType;

verus! {

/// Interval between failure-detector ticks, in milliseconds.
pub const TICK_INTERVAL_MS: u64 = 500;

/// How long a probe waits for its Ack before the target is suspected.
pub const PROBE_TIMEOUT_MS: u64 = 250;

/// How long a Suspect member has to refute before it is declared Down.
pub const SUSPICION_TIMEOUT_MS: u64 = 2000;

/// How long a Down member is retained as a tombstone before eviction.
pub const TOMBSTONE_TIMEOUT_MS: u64 = 10000;

/// An outstanding probe awaiting its Ack.
#[derive(Debug)]
pub struct PendingProbe {
    pub target: String,
    pub msg_num: u64,
    pub deadline: u64,
}

/// Mathematical model of a pending probe.
#[verifier::ext_equal]
pub ghost struct ProbeView {
    pub target: Seq<char>,
    pub msg_num: u64,
    pub deadline: u64,
}

impl View for PendingProbe {
    type V = ProbeView;

    open spec fn view(&self) -> ProbeView {
        ProbeView { target: self.target@, msg_num: self.msg_num, deadline: self.deadline }
    }
}

/// A per-address deadline: a suspicion window or a tombstone retention
/// window.
#[derive(Debug)]
pub struct Timer {
    pub addr: String,
    pub deadline: u64,
}

/// Mathematical model of a timer.
#[verifier::ext_equal]
pub ghost struct TimerView {
    pub addr: Seq<char>,
    pub deadline: u64,
}

impl View for Timer {
    type V = TimerView;

    open spec fn view(&self) -> TimerView {
        TimerView { addr: self.addr@, deadline: self.deadline }
    }
}

/// One message to hand to the transport.
#[derive(Debug)]
pub struct Outgoing {
    pub dest: String,
    pub msg: SerfMessage,
}

/// One agent's engine state.
#[derive(Debug)]
pub struct SerfClient {
    pub udp_port: u16,
    pub client_addr: String,
    pub start_join: Vec<String>,
    pub labels: Vec<(String, String)>,
    pub incarnation: u64,
    pub current_state: SerfState,
    pub updates_buffer: UpdateQueue,
    pub next_msg_num: u64,
    pub pending_probe: Option<PendingProbe>,
    pub suspicions: Vec<Timer>,
    pub tombstones: Vec<Timer>,
}

/// The engine invariant: the table has one entry per address and every
/// queued update still has transmission budget.
pub open spec fn wf_client(c: &SerfClient) -> bool {
    &&& unique_addrs(c.current_state@)
    &&& wf_queue(c.updates_buffer@)
}

impl SerfClient {
    /// The local agent's own member record: always Up, at the current
    /// incarnation, carrying the configured labels.
    pub fn local_member(&self) -> (r: SerfMember)
        ensures
            r@ == (MemberView {
                addr: self.client_addr@,
                status: SerfStatus::Up,
                incarnation: self.incarnation,
                labels: crate::wire::labels_view(self.labels@),
            }),
    {
        let mut labels: Vec<(String, String)> = Vec::new();
        let mut i: usize = 0;
        while i < self.labels.len()
            invariant
                i <= self.labels@.len(),
                labels@.len() == i as int,
                forall|j: int|
                    0 <= j < i ==> (#[trigger] labels@[j]).0@ == self.labels@[j].0@
                        && labels@[j].1@ == self.labels@[j].1@,
            decreases self.labels.len() - i,
        {
            let pair = &self.labels[i];
            labels.push((pair.0.clone(), pair.1.clone()));
            i = i + 1;
        }
        let r = SerfMember {
            addr: self.client_addr.clone(),
            status: SerfStatus::Up,
            incarnation: self.incarnation,
            labels,
        };
        proof {
            assert(r@.labels =~= crate::wire::labels_view(self.labels@));
            assert(r@ =~= MemberView {
                addr: self.client_addr@,
                status: SerfStatus::Up,
                incarnation: self.incarnation,
                labels: crate::wire::labels_view(self.labels@),
            });
        }
        r
    }

    /// The next outgoing sequence number; the counter wraps at the top.
    fn take_msg_num(&mut self) -> (n: u64)
        ensures
            n == old(self).next_msg_num,
            final(self).next_msg_num == (if old(self).next_msg_num == u64::MAX {
                0u64
            } else {
                (old(self).next_msg_num + 1) as u64
            }),
            final(self).current_state == old(self).current_state,
            final(self).updates_buffer == old(self).updates_buffer,
            final(self).pending_probe == old(self).pending_probe,
            final(self).suspicions == old(self).suspicions,
            final(self).tombstones == old(self).tombstones,
            final(self).client_addr == old(self).client_addr,
            final(self).incarnation == old(self).incarnation,
            final(self).start_join == old(self).start_join,
            final(self).labels == old(self).labels,
            final(self).udp_port == old(self).udp_port,
    {
        let n = self.next_msg_num;
        if self.next_msg_num == u64::MAX {
            self.next_msg_num = 0;
        } else {
            self.next_msg_num = self.next_msg_num + 1;
        }
        n
    }

    /// Seed the engine: the local agent enters its own table as Up, and
    /// one Join announcing it goes to every configured seed address.
    pub fn bootstrap(&mut self) -> (out: Vec<Outgoing>)
        requires
            wf_client(old(self)),
        ensures
            wf_client(final(self)),
            final(self).current_state@ == crate::table::spec_upsert(
                old(self).current_state@,
                MemberView {
                    addr: old(self).client_addr@,
                    status: SerfStatus::Up,
                    incarnation: old(self).incarnation,
                    labels: crate::wire::labels_view(old(self).labels@),
                },
            ),
            spec_find(final(self).current_state@, old(self).client_addr@) is Some,
            out@.len() == old(self).start_join@.len(),
            forall|i: int|
                0 <= i < out@.len() ==> (#[trigger] out@[i]).dest@ == old(self).start_join@[i]@
                    && (out@[i].msg@.msg_type matches crate::wire::MessageTypeView::Join(m)
                    && m.addr == old(self).client_addr@ && m.status == SerfStatus::Up
                    && m.incarnation == old(self).incarnation && m.labels
                    == crate::wire::labels_view(old(self).labels@)) && out@[i].msg@.updates.len()
                    == 0,
            final(self).updates_buffer == old(self).updates_buffer,
            final(self).pending_probe == old(self).pending_probe,
            final(self).suspicions == old(self).suspicions,
            final(self).tombstones == old(self).tombstones,
            final(self).incarnation == old(self).incarnation,
            final(self).client_addr == old(self).client_addr,
            final(self).start_join == old(self).start_join,
            final(self).labels == old(self).labels,
            final(self).udp_port == old(self).udp_port,
    {
        let me = self.local_member();
        let ghost mev = me@;
        self.current_state.upsert(me);
        proof {
            let a = self.client_addr@;
            let s0 = old(self).current_state@;
            let s1 = self.current_state@;
            crate::table::lemma_spec_find(s1, a);
            match spec_find(s1, a) {
                Some(_) => {},
                None => {
                    crate::table::lemma_spec_find(s0, a);
                    match spec_find(s0, a) {
                        None => {
                            assert(s1 == s0.push(mev));
                            assert(s1[s1.len() - 1].addr == a);
                        },
                        Some(i) => {
                            assert(s1[i].addr == a);
                        },
                    }
                    assert(false);
                },
            }
        }
        let mut out: Vec<Outgoing> = Vec::new();
        let mut i: usize = 0;
        while i < self.start_join.len()
            invariant
                i <= self.start_join@.len(),
                wf_client(self),
                self.start_join == old(self).start_join,
                self.client_addr == old(self).client_addr,
                self.incarnation == old(self).incarnation,
                spec_find(self.current_state@, old(self).client_addr@) is Some,
                self.current_state@ == crate::table::spec_upsert(
                    old(self).current_state@,
                    MemberView {
                        addr: old(self).client_addr@,
                        status: SerfStatus::Up,
                        incarnation: old(self).incarnation,
                        labels: crate::wire::labels_view(old(self).labels@),
                    },
                ),
                self.updates_buffer == old(self).updates_buffer,
                self.pending_probe == old(self).pending_probe,
                self.suspicions == old(self).suspicions,
                self.tombstones == old(self).tombstones,
                self.labels == old(self).labels,
                self.udp_port == old(self).udp_port,
                out@.len() == i as int,
                forall|j: int|
                    0 <= j < i ==> (#[trigger] out@[j]).dest@ == old(self).start_join@[j]@ && (
                    out@[j].msg@.msg_type matches crate::wire::MessageTypeView::Join(m) && m.addr
                        == old(self).client_addr@ && m.status == SerfStatus::Up && m.incarnation
                        == old(self).incarnation && m.labels == crate::wire::labels_view(
                        old(self).labels@,
                    )) && out@[j].msg@.updates.len() == 0,
            decreases self.start_join@.len() - i,
        {
            let dest = self.start_join[i].clone();
            let me = self.local_member();
            let n = self.take_msg_num();
            let msg = SerfMessage {
                msg_num: n,
                msg_type: SerfMessageType::Join(me),
                updates: Vec::new(),
            };
            out.push(Outgoing { dest, msg });
            i = i + 1;
        }
        out
    }

    /// Answer an inbound Ping: an Ack carrying the local address echoes
    /// the probe's sequence number, with the pending dissemination
    /// updates piggybacked.
    pub fn handle_ping_msg(&mut self, addr: String, msg_num: u64) -> (r: Outgoing)
        requires
            wf_client(old(self)),
        ensures
            wf_client(final(self)),
            r.dest@ == addr@,
            r.msg@.msg_num == msg_num,
            r.msg@.msg_type matches crate::wire::MessageTypeView::Ack(a) && a == old(self).client_addr@,
            take_step(old(self).updates_buffer@, final(self).updates_buffer@, r.msg@.updates),
            final(self).current_state == old(self).current_state,
            final(self).pending_probe == old(self).pending_probe,
            final(self).suspicions == old(self).suspicions,
            final(self).tombstones == old(self).tombstones,
            final(self).incarnation == old(self).incarnation,
            final(self).next_msg_num == old(self).next_msg_num,
            final(self).udp_port == old(self).udp_port,
            final(self).client_addr == old(self).client_addr,
            final(self).start_join == old(self).start_join,
            final(self).labels == old(self).labels,
    {
        let updates = self.updates_buffer.take_piggyback();
        let msg = SerfMessage {
            msg_num,
            msg_type: SerfMessageType::Ack(self.client_addr.clone()),
            updates,
        };
        proof {
            let q0 = old(self).updates_buffer@;
            let k = if q0.len() < crate::gossip::PIGGYBACK_MAX as int {
                q0.len() as int
            } else {
                crate::gossip::PIGGYBACK_MAX as int
            };
            assert(msg@.updates =~= members_of(q0.take(k)));
        }
        Outgoing { dest: addr, msg }
    }

    /// Process an inbound Ack: a matching pending probe is cleared, any
    /// suspicion of the sender is withdrawn, and a Suspect entry for the
    /// sender returns to Up.
    pub fn handle_ack_msg(&mut self, addr: String, msg_num: u64)
        requires
            wf_client(old(self)),
        ensures
            wf_client(final(self)),
            final(self).current_state@ == spec_mark_alive(old(self).current_state@, addr@),
            final(self).pending_probe == (match old(self).pending_probe {
                None => None::<PendingProbe>,
                Some(p) => if p@.target == addr@ && p@.msg_num == msg_num {
                    None::<PendingProbe>
                } else {
                    old(self).pending_probe
                },
            }),
            forall|i: int|
                0 <= i < final(self).suspicions@.len()
                    ==> (#[trigger] final(self).suspicions@[i])@.addr != addr@,
            forall|i: int|
                0 <= i < old(self).suspicions@.len() ==> (old(self).suspicions@[i]@.addr != addr@
                    ==> final(self).suspicions@.contains(#[trigger] old(self).suspicions@[i])),
            final(self).tombstones == old(self).tombstones,
            final(self).updates_buffer == old(self).updates_buffer,
            final(self).incarnation == old(self).incarnation,
            final(self).next_msg_num == old(self).next_msg_num,
            final(self).udp_port == old(self).udp_port,
            final(self).client_addr == old(self).client_addr,
            final(self).start_join == old(self).start_join,
            final(self).labels == old(self).labels,
    {
        let clear = match &self.pending_probe {
            None => false,
            Some(p) => p.msg_num == msg_num && p.target == addr,
        };
        if clear {
            self.pending_probe = None;
        }
        let mut kept: Vec<Timer> = Vec::new();
        let mut i: usize = 0;
        while i < self.suspicions.len()
            invariant
                i <= self.suspicions@.len(),
                forall|j: int|
                    0 <= j < kept@.len() ==> (#[trigger] kept@[j])@.addr != addr@,
                forall|j: int|
                    0 <= j < i ==> (self.suspicions@[j]@.addr != addr@ ==> kept@.contains(
                        #[trigger] self.suspicions@[j],
                    )),
                self.suspicions == old(self).suspicions,
            decreases self.suspicions@.len() - i,
        {
            let ghost kept0 = kept@;
            let t = &self.suspicions[i];
            let same = t.addr == addr;
            if !same {
                kept.push(Timer { addr: t.addr.clone(), deadline: t.deadline });
                proof {
                    assert(kept@[kept@.len() - 1] == self.suspicions@[i as int]);
                }
            }
            i = i + 1;
            proof {
                assert forall|j: int|
                    0 <= j < i && self.suspicions@[j]@.addr != addr@ implies kept@.contains(
                        #[trigger] self.suspicions@[j],
                    ) by {
                    if j < i - 1 {
                        if self.suspicions@[j]@.addr != addr@ {
                            let k = choose|k: int|
                                0 <= k < kept0.len() && kept0[k] == self.suspicions@[j];
                            assert(kept@[k] == self.suspicions@[j]);
                        }
                    } else {
                        if !same {
                            assert(kept@[kept@.len() - 1] == self.suspicions@[j]);
                        } else {
                            assert(self.suspicions@[j]@.addr == addr@);
                        }
                    }
                }
            }
        }
        self.suspicions = kept;
        self.current_state.mark_alive(&addr);
    }

    /// Process an inbound Join: the announced member enters the table
    /// under the upsert rule (a claim naming the local agent goes
    /// through the self-refutation rule instead), the change (if any)
    /// is queued for gossip, and every inbound Join is answered
    /// immediately with a Join carrying the local member and the full
    /// table snapshot, so the joining agent bootstraps its view.
    pub fn handle_join_msg(&mut self, addr: String, member: SerfMember) -> (r: Outgoing)
        requires
            wf_client(old(self)),
        ensures
            wf_client(final(self)),
            member@.addr != old(self).client_addr@ ==> final(self).current_state@
                == crate::table::spec_upsert(old(self).current_state@, member@) && final(self).incarnation == old(self).incarnation,
            member@.addr != old(self).client_addr@ && final(self).current_state@ != old(self).current_state@ ==> final(self).updates_buffer@ == crate::gossip::spec_enqueue(
                old(self).updates_buffer@,
                member@,
            ),
            member@.addr != old(self).client_addr@ && final(self).current_state@ == old(self).current_state@ ==> final(self).updates_buffer == old(self).updates_buffer,
            member@.addr == old(self).client_addr@ && member@.status == SerfStatus::Up ==> final(self).current_state == old(self).current_state && final(self).updates_buffer == old(self).updates_buffer && final(self).incarnation == old(self).incarnation,
            member@.addr == old(self).client_addr@ && member@.status != SerfStatus::Up ==> ({
                let me = MemberView {
                    addr: old(self).client_addr@,
                    status: SerfStatus::Up,
                    incarnation: final(self).incarnation,
                    labels: crate::wire::labels_view(old(self).labels@),
                };
                &&& final(self).incarnation >= old(self).incarnation
                &&& final(self).current_state@ == crate::table::spec_upsert(
                    old(self).current_state@,
                    me,
                )
                &&& ((match spec_find(old(self).current_state@, old(self).client_addr@) {
                    None => true,
                    Some(i) => old(self).current_state@[i].incarnation < u64::MAX,
                }) ==> (match spec_find(final(self).current_state@, old(self).client_addr@) {
                    None => false,
                    Some(i) => final(self).current_state@[i].status == SerfStatus::Up,
                }))
            }),
            r.dest@ == addr@,
            r.msg@.msg_num == old(self).next_msg_num,
            r.msg@.msg_type matches crate::wire::MessageTypeView::Join(m) && m.addr == old(self).client_addr@ && m.status == SerfStatus::Up && m.incarnation == final(self).incarnation
                && m.labels == crate::wire::labels_view(old(self).labels@),
            r.msg@.updates.len() == final(self).current_state@.len(),
            forall|i: int|
                0 <= i < r.msg@.updates.len() ==> r.msg@.updates[i] == final(self).current_state@[i],
            final(self).udp_port == old(self).udp_port,
            final(self).client_addr == old(self).client_addr,
            final(self).start_join == old(self).start_join,
            final(self).labels == old(self).labels,
            final(self).pending_probe == old(self).pending_probe,
            final(self).suspicions == old(self).suspicions,
            final(self).tombstones == old(self).tombstones,
    {
        self.apply_update(member);
        let me = self.local_member();
        let n = self.take_msg_num();
        let updates = self.current_state.snapshot();
        let msg = SerfMessage { msg_num: n, msg_type: SerfMessageType::Join(me), updates };
        proof {
            assert(msg@.updates =~= Seq::new(
                final(self).current_state@.len(),
                |i: int| final(self).current_state@[i],
            ));
        }
        Outgoing { dest: addr, msg }
    }

    /// Drive the probe deadline: a pending probe whose deadline has
    /// passed suspects its target — the member turns Suspect in the
    /// table, a suspicion window opens, and the change is queued for
    /// gossip. Returns the suspected address, if any.
    pub fn expire_probe(&mut self, now: u64) -> (suspected: Option<String>)
        requires
            wf_client(old(self)),
            now <= u64::MAX - SUSPICION_TIMEOUT_MS,
        ensures
            wf_client(final(self)),
            match old(self).pending_probe {
                None => suspected is None && *final(self) == *old(self),
                Some(p) => if p@.deadline <= now {
                    &&& suspected matches Some(a) && a@ == p@.target
                    &&& final(self).current_state@ == spec_mark_suspect(
                        old(self).current_state@,
                        p@.target,
                    )
                    &&& final(self).pending_probe is None
                    &&& final(self).suspicions@.len() == old(self).suspicions@.len() + 1
                    &&& (forall|j: int|
                        0 <= j < old(self).suspicions@.len() ==> final(self).suspicions@[j] == old(self).suspicions@[j])
                    &&& final(self).suspicions@.last()@ == (TimerView {
                        addr: p@.target,
                        deadline: (now + SUSPICION_TIMEOUT_MS) as u64,
                    })
                    &&& (match spec_find(old(self).current_state@, p@.target) {
                        None => final(self).updates_buffer == old(self).updates_buffer,
                        Some(i) => if old(self).current_state@[i].status == SerfStatus::Up {
                            final(self).updates_buffer@ == crate::gossip::spec_enqueue(
                                old(self).updates_buffer@,
                                MemberView {
                                    addr: old(self).current_state@[i].addr,
                                    status: SerfStatus::Suspect,
                                    incarnation: old(self).current_state@[i].incarnation,
                                    labels: old(self).current_state@[i].labels,
                                },
                            )
                        } else {
                            final(self).updates_buffer == old(self).updates_buffer
                        },
                    })
                } else {
                    suspected is None && *final(self) == *old(self)
                },
            },
            final(self).tombstones == old(self).tombstones,
            final(self).incarnation == old(self).incarnation,
            final(self).next_msg_num == old(self).next_msg_num,
            final(self).udp_port == old(self).udp_port,
            final(self).client_addr == old(self).client_addr,
            final(self).start_join == old(self).start_join,
            final(self).labels == old(self).labels,
    {
        let expired = match &self.pending_probe {
            None => false,
            Some(p) => p.deadline <= now,
        };
        if !expired {
            return None;
        }
        let target = match &self.pending_probe {
            Some(p) => p.target.clone(),
            None => {
                proof {
                    assert(false);
                }
                String::new()
            },
        };
        self.pending_probe = None;
        let idx = self.current_state.find_index(&target);
        let was_up = match idx {
            Some(i) => {
                proof {
                    crate::table::lemma_spec_find(self.current_state@, target@);
                }
                matches!(self.current_state.members[i].status, SerfStatus::Up)
            },
            None => false,
        };
        self.current_state.mark_suspect(&target);
        if was_up {
            let i = match idx {
                Some(i) => i,
                None => 0,
            };
            proof {
                crate::table::lemma_spec_find(old(self).current_state@, target@);
                assert(self.current_state@.len() == old(self).current_state@.len());
                assert(0 <= i as int && (i as int) < self.current_state@.len());
                assert(self.current_state@[i as int] =~= MemberView {
                    addr: old(self).current_state@[i as int].addr,
                    status: SerfStatus::Suspect,
                    incarnation: old(self).current_state@[i as int].incarnation,
                    labels: old(self).current_state@[i as int].labels,
                });
            }
            let rec = self.current_state.members[i].clone();
            proof {
                assert(rec@ == self.current_state@[i as int]);
            }
            self.updates_buffer.queue_update(rec);
        }
        self.suspicions.push(Timer { addr: target.clone(), deadline: now + SUSPICION_TIMEOUT_MS });
        Some(target)
    }

    /// Start a probe from a caller-supplied random draw: with no probe
    /// outstanding, the draw picks the target among the eligible Up
    /// members, a Ping goes out with the piggybacked updates, and the
    /// probe is recorded with its deadline.
    pub fn send_probe_with(&mut self, now: u64, draw: u64) -> (r: Option<Outgoing>)
        requires
            wf_client(old(self)),
            now <= u64::MAX - PROBE_TIMEOUT_MS,
        ensures
            wf_client(final(self)),
            final(self).current_state == old(self).current_state,
            old(self).pending_probe is Some ==> r is None && *final(self) == *old(self),
            old(self).pending_probe is None ==> ({
                let es = eligible_targets(old(self).current_state@, old(self).client_addr@);
                if es.len() == 0 {
                    r is None && *final(self) == *old(self)
                } else {
                    &&& r matches Some(o) && o.dest@ == es[draw as int % es.len() as int] && (
                    o.msg@.msg_type matches crate::wire::MessageTypeView::Ping(a) && a == old(self).client_addr@) && o.msg@.msg_num == old(self).next_msg_num && take_step(
                        old(self).updates_buffer@,
                        final(self).updates_buffer@,
                        o.msg@.updates,
                    )
                    &&& final(self).pending_probe matches Some(p) && p@.target == es[draw as int
                        % es.len() as int] && p@.msg_num == old(self).next_msg_num && p@.deadline
                        == (now + PROBE_TIMEOUT_MS) as u64
                }
            }),
    {
        if self.pending_probe.is_some() {
            return None;
        }
        let target = match self.current_state.random_probe_target(&self.client_addr, draw) {
            None => {
                return None;
            },
            Some(t) => t,
        };
        let n = self.take_msg_num();
        let updates = self.updates_buffer.take_piggyback();
        proof {
            let q0 = old(self).updates_buffer@;
            let k = if q0.len() < crate::gossip::PIGGYBACK_MAX as int {
                q0.len() as int
            } else {
                crate::gossip::PIGGYBACK_MAX as int
            };
            assert(Seq::new(updates@.len(), |i: int| updates@[i]@) =~= members_of(q0.take(k)));
        }
        let msg = SerfMessage {
            msg_num: n,
            msg_type: SerfMessageType::Ping(self.client_addr.clone()),
            updates,
        };
        self.pending_probe = Some(
            PendingProbe {
                target: target.clone(),
                msg_num: n,
                deadline: now + PROBE_TIMEOUT_MS,
            },
        );
        proof {
            let q0 = old(self).updates_buffer@;
            let k = if q0.len() < crate::gossip::PIGGYBACK_MAX as int {
                q0.len() as int
            } else {
                crate::gossip::PIGGYBACK_MAX as int
            };
            assert(msg@.updates =~= members_of(q0.take(k)));
        }
        Some(Outgoing { dest: target, msg })
    }

    /// Start a probe with a fresh random draw.
    pub fn send_probe(&mut self, now: u64) -> (r: Option<Outgoing>)
        requires
            wf_client(old(self)),
            now <= u64::MAX - PROBE_TIMEOUT_MS,
        ensures
            wf_client(final(self)),
            final(self).current_state == old(self).current_state,
            old(self).pending_probe is Some ==> r is None && *final(self) == *old(self),
            old(self).pending_probe is None && eligible_targets(
                old(self).current_state@,
                old(self).client_addr@,
            ).len() == 0 ==> r is None && *final(self) == *old(self),
            old(self).pending_probe is None && eligible_targets(
                old(self).current_state@,
                old(self).client_addr@,
            ).len() > 0 ==> ({
                &&& r matches Some(o) && (o.msg@.msg_type
                    matches crate::wire::MessageTypeView::Ping(a) && a == old(self).client_addr@)
                    && o.msg@.msg_num == old(self).next_msg_num && take_step(
                    old(self).updates_buffer@,
                    final(self).updates_buffer@,
                    o.msg@.updates,
                )
                &&& final(self).pending_probe matches Some(p) && p@.target == r->Some_0.dest@
                    && p@.deadline == (now + PROBE_TIMEOUT_MS) as u64
                &&& exists|i: int|
                    0 <= i < old(self).current_state@.len() && old(self).current_state@[i].addr
                        == r->Some_0.dest@ && old(self).current_state@[i].status == SerfStatus::Up
                        && old(self).current_state@[i].addr != old(self).client_addr@
            }),
    {
        let draw = random_draw();
        let r = self.send_probe_with(now, draw);
        proof {
            if old(self).pending_probe is None {
                let es = eligible_targets(old(self).current_state@, old(self).client_addr@);
                if es.len() > 0 {
                    crate::table::lemma_eligible_targets(
                        old(self).current_state@,
                        old(self).client_addr@,
                    );
                    assert(0 <= (draw as int % (es.len() as int)) && (draw as int % (es.len() as int)) < es.len());
                }
            }
        }
        r
    }
}



/// Deep view of a timer vector.
pub open spec fn timers_view(ts: Seq<Timer>) -> Seq<TimerView> {
    Seq::new(ts.len(), |i: int| ts[i]@)
}

/// Addresses of the timers elapsed at `now`, in list order.
pub open spec fn expired_addrs(ts: Seq<TimerView>, now: u64) -> Seq<Seq<char>>
    decreases ts.len(),
{
    if ts.len() == 0 {
        Seq::empty()
    } else {
        let rest = expired_addrs(ts.drop_last(), now);
        if ts.last().deadline <= now {
            rest.push(ts.last().addr)
        } else {
            rest
        }
    }
}

/// The timers still running at `now`, in list order.
pub open spec fn live_timers(ts: Seq<TimerView>, now: u64) -> Seq<TimerView>
    decreases ts.len(),
{
    if ts.len() == 0 {
        Seq::empty()
    } else {
        let rest = live_timers(ts.drop_last(), now);
        if ts.last().deadline <= now {
            rest
        } else {
            rest.push(ts.last())
        }
    }
}

/// One elapsed suspicion window: a Suspect entry for the address turns
/// Down; an Up, Down or missing entry is left alone (the suspicion was
/// refuted or superseded in the meantime).
pub open spec fn spec_reap(s: Seq<MemberView>, a: Seq<char>) -> Seq<MemberView> {
    match spec_find(s, a) {
        None => s,
        Some(i) => if s[i].status == SerfStatus::Suspect {
            crate::table::spec_mark_dead(s, a)
        } else {
            s
        },
    }
}

/// The elapsed suspicion windows applied in order.
pub open spec fn spec_reap_all(s: Seq<MemberView>, addrs: Seq<Seq<char>>) -> Seq<MemberView>
    decreases addrs.len(),
{
    if addrs.len() == 0 {
        s
    } else {
        spec_reap_all(spec_reap(s, addrs[0]), addrs.drop_first())
    }
}

/// The Down record one elapsed suspicion produces: empty when the
/// member was not Suspect any more.
pub open spec fn reap_record(s: Seq<MemberView>, a: Seq<char>) -> Seq<MemberView> {
    match spec_find(s, a) {
        None => Seq::empty(),
        Some(i) => if s[i].status == SerfStatus::Suspect {
            seq![
                MemberView {
                    addr: s[i].addr,
                    status: SerfStatus::Down,
                    incarnation: s[i].incarnation,
                    labels: s[i].labels,
                },
            ]
        } else {
            Seq::empty()
        },
    }
}

/// The Down records the elapsed suspicions produce, in order.
pub open spec fn spec_reap_records(s: Seq<MemberView>, addrs: Seq<Seq<char>>) -> Seq<MemberView>
    decreases addrs.len(),
{
    if addrs.len() == 0 {
        Seq::empty()
    } else {
        reap_record(s, addrs[0]) + spec_reap_records(spec_reap(s, addrs[0]), addrs.drop_first())
    }
}

pub proof fn lemma_reap_all_push(s: Seq<MemberView>, addrs: Seq<Seq<char>>, a: Seq<char>)
    ensures
        spec_reap_all(s, addrs.push(a)) == spec_reap(spec_reap_all(s, addrs), a),
        spec_reap_records(s, addrs.push(a)) =~= spec_reap_records(s, addrs) + reap_record(
            spec_reap_all(s, addrs),
            a,
        ),
    decreases addrs.len(),
{
    if addrs.len() == 0 {
        assert(addrs.push(a)[0] == a);
        assert(addrs.push(a).drop_first() =~= Seq::<Seq<char>>::empty());
        assert(spec_reap_all(spec_reap(s, a), Seq::<Seq<char>>::empty()) == spec_reap(s, a));
        assert(spec_reap_records(spec_reap(s, a), Seq::<Seq<char>>::empty())
            =~= Seq::<MemberView>::empty());
        assert(spec_reap_records(s, Seq::<Seq<char>>::empty()) =~= Seq::<MemberView>::empty());
    } else {
        assert(addrs.push(a)[0] == addrs[0]);
        assert(addrs.push(a).drop_first() =~= addrs.drop_first().push(a));
        lemma_reap_all_push(spec_reap(s, addrs[0]), addrs.drop_first(), a);
    }
}

/// One elapsed tombstone window: a Down entry for the address leaves
/// the table; any other entry is left alone.
pub open spec fn spec_evict(s: Seq<MemberView>, a: Seq<char>) -> Seq<MemberView> {
    match spec_find(s, a) {
        None => s,
        Some(i) => if s[i].status == SerfStatus::Down {
            s.remove(i)
        } else {
            s
        },
    }
}

/// The elapsed tombstone windows applied in order.
pub open spec fn spec_evict_all(s: Seq<MemberView>, addrs: Seq<Seq<char>>) -> Seq<MemberView>
    decreases addrs.len(),
{
    if addrs.len() == 0 {
        s
    } else {
        spec_evict_all(spec_evict(s, addrs[0]), addrs.drop_first())
    }
}

pub proof fn lemma_evict_all_push(s: Seq<MemberView>, addrs: Seq<Seq<char>>, a: Seq<char>)
    ensures
        spec_evict_all(s, addrs.push(a)) == spec_evict(spec_evict_all(s, addrs), a),
    decreases addrs.len(),
{
    if addrs.len() == 0 {
        assert(addrs.push(a)[0] == a);
        assert(addrs.push(a).drop_first() =~= Seq::<Seq<char>>::empty());
        assert(spec_evict_all(spec_evict(s, a), Seq::<Seq<char>>::empty()) == spec_evict(s, a));
    } else {
        assert(addrs.push(a)[0] == addrs[0]);
        assert(addrs.push(a).drop_first() =~= addrs.drop_first().push(a));
        lemma_evict_all_push(spec_evict(s, addrs[0]), addrs.drop_first(), a);
    }
}

/// One failure-detector transition on a table entry: the record is
/// unchanged, or a Suspect record has turned Down. The detector never
/// moves a member from Up to Down without passing through Suspect.
pub open spec fn detector_step(o: MemberView, n: MemberView) -> bool {
    &&& n.addr == o.addr
    &&& n.incarnation == o.incarnation
    &&& n.labels == o.labels
    &&& (n.status == o.status || (o.status == SerfStatus::Suspect && n.status == SerfStatus::Down))
}

impl SerfClient {
    /// Drive the suspicion windows: every member whose suspicion window
    /// has elapsed and who is still Suspect turns Down, is queued for
    /// gossip, and begins its tombstone retention window; the elapsed
    /// timers are withdrawn and the dead addresses are returned. Every
    /// table entry is either untouched or moves Suspect -> Down: the
    /// detector never declares an Up member dead directly.
    pub fn expire_suspicions(&mut self, now: u64) -> (died: Vec<String>)
        requires
            wf_client(old(self)),
            now <= u64::MAX - TOMBSTONE_TIMEOUT_MS,
        ensures
            wf_client(final(self)),
            final(self).current_state@.len() == old(self).current_state@.len(),
            forall|i: int|
                0 <= i < old(self).current_state@.len() ==> detector_step(
                    #[trigger] old(self).current_state@[i],
                    final(self).current_state@[i],
                ),
            ({
                let exp = expired_addrs(timers_view(old(self).suspicions@), now);
                let recs = spec_reap_records(old(self).current_state@, exp);
                &&& final(self).current_state@ == spec_reap_all(old(self).current_state@, exp)
                &&& died@.len() == recs.len()
                &&& (forall|i: int| 0 <= i < recs.len() ==> (#[trigger] died@[i])@ == recs[i].addr)
                &&& final(self).updates_buffer@ == crate::gossip::spec_enqueue_all(
                    old(self).updates_buffer@,
                    recs,
                )
                &&& timers_view(final(self).suspicions@) == live_timers(
                    timers_view(old(self).suspicions@),
                    now,
                )
                &&& timers_view(final(self).tombstones@) == timers_view(old(self).tombstones@)
                    + Seq::new(
                    recs.len(),
                    |i: int|
                        TimerView {
                            addr: recs[i].addr,
                            deadline: (now + TOMBSTONE_TIMEOUT_MS) as u64,
                        },
                )
            }),
            final(self).pending_probe == old(self).pending_probe,
            final(self).incarnation == old(self).incarnation,
            final(self).next_msg_num == old(self).next_msg_num,
            final(self).udp_port == old(self).udp_port,
            final(self).client_addr == old(self).client_addr,
            final(self).start_join == old(self).start_join,
            final(self).labels == old(self).labels,
    {
        let ghost sv = timers_view(old(self).suspicions@);
        let ghost s0 = old(self).current_state@;
        let ghost q0 = old(self).updates_buffer@;
        let ghost tv0 = timers_view(old(self).tombstones@);
        let mut died: Vec<String> = Vec::new();
        let mut kept: Vec<Timer> = Vec::new();
        let mut i: usize = 0;
        proof {
            assert(sv.take(0) =~= Seq::<TimerView>::empty());
            assert(timers_view(kept@) =~= live_timers(sv.take(0), now));
            assert(timers_view(self.tombstones@) =~= tv0 + Seq::new(
                0,
                |j: int|
                    TimerView { addr: Seq::empty(), deadline: (now + TOMBSTONE_TIMEOUT_MS) as u64 },
            ));
        }
        while i < self.suspicions.len()
            invariant
                i <= self.suspicions@.len(),
                now <= u64::MAX - TOMBSTONE_TIMEOUT_MS,
                wf_client(self),
                sv == timers_view(old(self).suspicions@),
                s0 == old(self).current_state@,
                q0 == old(self).updates_buffer@,
                tv0 == timers_view(old(self).tombstones@),
                sv.len() == self.suspicions@.len(),
                self.suspicions == old(self).suspicions,
                self.pending_probe == old(self).pending_probe,
                self.incarnation == old(self).incarnation,
                self.next_msg_num == old(self).next_msg_num,
                self.udp_port == old(self).udp_port,
                self.client_addr == old(self).client_addr,
                self.start_join == old(self).start_join,
                self.labels == old(self).labels,
                self.current_state@.len() == s0.len(),
                forall|j: int|
                    0 <= j < s0.len() ==> detector_step(
                        #[trigger] s0[j],
                        self.current_state@[j],
                    ),
                ({
                    let exp = expired_addrs(sv.take(i as int), now);
                    let recs = spec_reap_records(s0, exp);
                    &&& self.current_state@ == spec_reap_all(s0, exp)
                    &&& died@.len() == recs.len()
                    &&& (forall|j: int|
                        0 <= j < recs.len() ==> (#[trigger] died@[j])@ == recs[j].addr)
                    &&& self.updates_buffer@ == crate::gossip::spec_enqueue_all(q0, recs)
                    &&& timers_view(kept@) == live_timers(sv.take(i as int), now)
                    &&& timers_view(self.tombstones@) == tv0 + Seq::new(
                        recs.len(),
                        |j: int|
                            TimerView {
                                addr: recs[j].addr,
                                deadline: (now + TOMBSTONE_TIMEOUT_MS) as u64,
                            },
                    )
                }),
            decreases self.suspicions@.len() - i,
        {
            let ghost exp0 = expired_addrs(sv.take(i as int), now);
            let ghost recs0 = spec_reap_records(s0, exp0);
            proof {
                assert(sv.take(i as int + 1).drop_last() =~= sv.take(i as int));
                assert(sv.take(i as int + 1).last() == sv[i as int]);
                assert(sv[i as int] == self.suspicions@[i as int]@);
            }
            let t = &self.suspicions[i];
            if t.deadline > now {
                kept.push(Timer { addr: t.addr.clone(), deadline: t.deadline });
                proof {
                    assert(expired_addrs(sv.take(i as int + 1), now) =~= exp0);
                    assert(timers_view(kept@) =~= live_timers(sv.take(i as int), now).push(
                        sv[i as int],
                    ));
                    assert(timers_view(kept@) =~= live_timers(sv.take(i as int + 1), now));
                }
            } else {
                let addr = t.addr.clone();
                let ghost cur = self.current_state@;
                let ghost curq = self.updates_buffer@;
                proof {
                    assert(expired_addrs(sv.take(i as int + 1), now) =~= exp0.push(addr@));
                    lemma_reap_all_push(s0, exp0, addr@);
                    assert(live_timers(sv.take(i as int + 1), now) =~= live_timers(
                        sv.take(i as int),
                        now,
                    ));
                }
                let idx = self.current_state.find_index(&addr);
                let is_suspect = match idx {
                    Some(k) => {
                        proof {
                            crate::table::lemma_spec_find(cur, addr@);
                        }
                        matches!(self.current_state.members[k].status, SerfStatus::Suspect)
                    },
                    None => false,
                };
                if is_suspect {
                    let k = match idx {
                        Some(k) => k,
                        None => 0,
                    };
                    let ghost downrec = MemberView {
                        addr: cur[k as int].addr,
                        status: SerfStatus::Down,
                        incarnation: cur[k as int].incarnation,
                        labels: cur[k as int].labels,
                    };
                    self.current_state.mark_dead(&addr);
                    proof {
                        crate::table::lemma_spec_find(cur, addr@);
                        assert(self.current_state@ =~= cur.update(k as int, downrec));
                        assert(spec_reap(cur, addr@) == self.current_state@);
                        assert(reap_record(cur, addr@) =~= seq![downrec]);
                        assert(spec_reap_records(s0, exp0.push(addr@)) =~= recs0.push(downrec));
                        assert forall|j: int|
                            0 <= j < s0.len() implies detector_step(
                            #[trigger] s0[j],
                            self.current_state@[j],
                        ) by {
                            if j != k as int {
                                assert(self.current_state@[j] == cur[j]);
                            }
                        }
                    }
                    let rec = self.current_state.members[k].clone();
                    proof {
                        assert(rec@ == self.current_state@[k as int]);
                        assert(rec@ =~= downrec);
                        crate::gossip::lemma_enqueue_all_push(q0, recs0, downrec);
                    }
                    self.updates_buffer.queue_update(rec);
                    self.tombstones.push(
                        Timer { addr: addr.clone(), deadline: now + TOMBSTONE_TIMEOUT_MS },
                    );
                    died.push(addr);
                    proof {
                        let recs1 = spec_reap_records(s0, exp0.push(addr@));
                        assert(self.updates_buffer@ == crate::gossip::spec_enqueue_all(q0, recs1));
                        assert(downrec.addr == addr@);
                        assert(timers_view(self.tombstones@) =~= (tv0 + Seq::new(
                            recs0.len(),
                            |j: int|
                                TimerView {
                                    addr: recs0[j].addr,
                                    deadline: (now + TOMBSTONE_TIMEOUT_MS) as u64,
                                },
                        )).push(
                            TimerView { addr: addr@, deadline: (now + TOMBSTONE_TIMEOUT_MS) as u64 },
                        ));
                        assert(recs1 == recs0.push(downrec));
                        assert(timers_view(self.tombstones@) =~= tv0 + Seq::new(
                            recs1.len(),
                            |j: int|
                                TimerView {
                                    addr: recs1[j].addr,
                                    deadline: (now + TOMBSTONE_TIMEOUT_MS) as u64,
                                },
                        ));
                        assert forall|j: int|
                            0 <= j < recs1.len() implies (#[trigger] died@[j])@ == recs1[j].addr by {
                            if j < recs0.len() {
                                assert(recs1[j] == recs0[j]);
                            } else {
                                assert(recs1[j] == downrec);
                            }
                        }
                    }
                } else {
                    proof {
                        assert(spec_reap(cur, addr@) == cur);
                        assert(reap_record(cur, addr@) =~= Seq::<MemberView>::empty());
                        assert(spec_reap_records(s0, exp0.push(addr@)) =~= recs0);
                        assert(timers_view(self.tombstones@) == tv0 + Seq::new(
                            spec_reap_records(s0, exp0.push(addr@)).len(),
                            |j: int|
                                TimerView {
                                    addr: spec_reap_records(s0, exp0.push(addr@))[j].addr,
                                    deadline: (now + TOMBSTONE_TIMEOUT_MS) as u64,
                                },
                        ));
                    }
                }
            }
            i = i + 1;
        }
        proof {
            assert(sv.take(sv.len() as int) =~= sv);
        }
        self.suspicions = kept;
        died
    }

    /// Drive the tombstone windows: every Down member whose retention
    /// window has elapsed is evicted from the table, bounding memory
    /// growth, and the elapsed timers are withdrawn. Entries only ever
    /// leave the table here, and only Down ones: every member that is
    /// not Down survives unchanged.
    pub fn evict_tombstones(&mut self, now: u64)
        requires
            wf_client(old(self)),
        ensures
            wf_client(final(self)),
            ({
                let exp = expired_addrs(timers_view(old(self).tombstones@), now);
                &&& final(self).current_state@ == spec_evict_all(old(self).current_state@, exp)
                &&& timers_view(final(self).tombstones@) == live_timers(
                    timers_view(old(self).tombstones@),
                    now,
                )
            }),
            forall|j: int|
                0 <= j < final(self).current_state@.len() ==> old(self).current_state@.contains(
                    #[trigger] final(self).current_state@[j],
                ),
            forall|j: int|
                0 <= j < old(self).current_state@.len() ==> ((#[trigger] old(self).current_state@[j]).status != SerfStatus::Down ==> final(self).current_state@.contains(old(self).current_state@[j])),
            final(self).pending_probe == old(self).pending_probe,
            final(self).suspicions == old(self).suspicions,
            final(self).updates_buffer == old(self).updates_buffer,
            final(self).incarnation == old(self).incarnation,
            final(self).next_msg_num == old(self).next_msg_num,
            final(self).udp_port == old(self).udp_port,
            final(self).client_addr == old(self).client_addr,
            final(self).start_join == old(self).start_join,
            final(self).labels == old(self).labels,
    {
        let ghost tv = timers_view(old(self).tombstones@);
        let ghost s0 = old(self).current_state@;
        let mut kept: Vec<Timer> = Vec::new();
        let mut i: usize = 0;
        proof {
            assert(tv.take(0) =~= Seq::<TimerView>::empty());
            assert(timers_view(kept@) =~= live_timers(tv.take(0), now));
        }
        while i < self.tombstones.len()
            invariant
                i <= self.tombstones@.len(),
                wf_client(self),
                tv == timers_view(old(self).tombstones@),
                s0 == old(self).current_state@,
                tv.len() == self.tombstones@.len(),
                self.tombstones == old(self).tombstones,
                self.pending_probe == old(self).pending_probe,
                self.suspicions == old(self).suspicions,
                self.updates_buffer == old(self).updates_buffer,
                self.incarnation == old(self).incarnation,
                self.next_msg_num == old(self).next_msg_num,
                self.udp_port == old(self).udp_port,
                self.client_addr == old(self).client_addr,
                self.start_join == old(self).start_join,
                self.labels == old(self).labels,
                self.current_state@ == spec_evict_all(s0, expired_addrs(tv.take(i as int), now)),
                timers_view(kept@) == live_timers(tv.take(i as int), now),
                forall|j: int|
                    0 <= j < self.current_state@.len() ==> s0.contains(
                        #[trigger] self.current_state@[j],
                    ),
                forall|j: int|
                    0 <= j < s0.len() ==> ((#[trigger] s0[j]).status != SerfStatus::Down
                        ==> self.current_state@.contains(s0[j])),
            decreases self.tombstones@.len() - i,
        {
            let ghost exp0 = expired_addrs(tv.take(i as int), now);
            proof {
                assert(tv.take(i as int + 1).drop_last() =~= tv.take(i as int));
                assert(tv.take(i as int + 1).last() == tv[i as int]);
                assert(tv[i as int] == self.tombstones@[i as int]@);
            }
            let t = &self.tombstones[i];
            if t.deadline > now {
                kept.push(Timer { addr: t.addr.clone(), deadline: t.deadline });
                proof {
                    assert(expired_addrs(tv.take(i as int + 1), now) =~= exp0);
                    assert(timers_view(kept@) =~= live_timers(tv.take(i as int), now).push(
                        tv[i as int],
                    ));
                    assert(timers_view(kept@) =~= live_timers(tv.take(i as int + 1), now));
                }
            } else {
                let addr = t.addr.clone();
                let ghost cur = self.current_state@;
                proof {
                    assert(expired_addrs(tv.take(i as int + 1), now) =~= exp0.push(addr@));
                    lemma_evict_all_push(s0, exp0, addr@);
                    assert(live_timers(tv.take(i as int + 1), now) =~= live_timers(
                        tv.take(i as int),
                        now,
                    ));
                }
                let idx = self.current_state.find_index(&addr);
                let is_down = match idx {
                    Some(k) => {
                        proof {
                            crate::table::lemma_spec_find(cur, addr@);
                        }
                        matches!(self.current_state.members[k].status, SerfStatus::Down)
                    },
                    None => false,
                };
                if is_down {
                    let ghost gk = match crate::table::spec_find(cur, addr@) {
                        Some(k) => k,
                        None => 0int,
                    };
                    self.current_state.remove_member(&addr);
                    proof {
                        crate::table::lemma_spec_find(cur, addr@);
                        assert(self.current_state@ =~= cur.remove(gk));
                        assert(spec_evict(cur, addr@) == self.current_state@);
                        assert forall|j: int|
                            0 <= j < self.current_state@.len() implies s0.contains(
                            #[trigger] self.current_state@[j],
                        ) by {
                            let jo = if j < gk {
                                j
                            } else {
                                j + 1
                            };
                            assert(self.current_state@[j] == cur[jo]);
                        }
                        assert forall|j: int|
                            0 <= j < s0.len() && (#[trigger] s0[j]).status != SerfStatus::Down implies self.current_state@.contains(
                            s0[j],
                        ) by {
                            let e = s0[j];
                            assert(cur.contains(e));
                            let x = choose|x: int| 0 <= x < cur.len() && cur[x] == e;
                            assert(cur[gk].status == SerfStatus::Down);
                            assert(x != gk);
                            if x < gk {
                                assert(self.current_state@[x] == cur[x]);
                            } else {
                                assert(self.current_state@[x - 1] == cur[x]);
                            }
                        }
                    }
                } else {
                    proof {
                        assert(spec_evict(cur, addr@) == cur);
                    }
                }
            }
            i = i + 1;
        }
        proof {
            assert(tv.take(tv.len() as int) =~= tv);
        }
        self.tombstones = kept;
    }

    /// Apply one piggybacked membership update from an inbound message.
    /// A claim about another member goes through the table's upsert rule
    /// and, when it changes the table, is queued for further gossip. A
    /// claim that the local agent is Suspect or Down is refuted, even a
    /// stale one: the local incarnation rises above the claim and the
    /// table's own record, and the agent re-announces itself as Up.
    pub fn apply_update(&mut self, m: SerfMember) -> (changed: bool)
        requires
            wf_client(old(self)),
        ensures
            changed <==> final(self).current_state@ != old(self).current_state@,
            wf_client(final(self)),
            final(self).client_addr == old(self).client_addr,
            final(self).pending_probe == old(self).pending_probe,
            final(self).suspicions == old(self).suspicions,
            final(self).tombstones == old(self).tombstones,
            final(self).next_msg_num == old(self).next_msg_num,
            final(self).start_join == old(self).start_join,
            final(self).labels == old(self).labels,
            final(self).udp_port == old(self).udp_port,
            m@.addr != old(self).client_addr@ ==> final(self).current_state@
                == crate::table::spec_upsert(old(self).current_state@, m@) && final(self).incarnation
                == old(self).incarnation,
            m@.addr != old(self).client_addr@ && final(self).current_state@ != old(self).current_state@ ==> final(self).updates_buffer@ == crate::gossip::spec_enqueue(
                old(self).updates_buffer@,
                m@,
            ),
            m@.addr != old(self).client_addr@ && final(self).current_state@ == old(self).current_state@ ==> final(self).updates_buffer == old(self).updates_buffer,
            m@.addr == old(self).client_addr@ && m@.status == SerfStatus::Up ==> *final(self)
                == *old(self),
            m@.addr == old(self).client_addr@ && m@.status != SerfStatus::Up ==> ({
                let me = MemberView {
                    addr: old(self).client_addr@,
                    status: SerfStatus::Up,
                    incarnation: final(self).incarnation,
                    labels: crate::wire::labels_view(old(self).labels@),
                };
                &&& final(self).incarnation >= old(self).incarnation
                &&& final(self).incarnation >= m@.incarnation
                &&& (m@.incarnation < u64::MAX ==> final(self).incarnation > m@.incarnation)
                &&& final(self).current_state@ == crate::table::spec_upsert(
                    old(self).current_state@,
                    me,
                )
                &&& (final(self).current_state@ != old(self).current_state@ ==> final(self).updates_buffer@ == crate::gossip::spec_enqueue(old(self).updates_buffer@, me))
                &&& (final(self).current_state@ == old(self).current_state@ ==> final(self).updates_buffer == old(self).updates_buffer)
                &&& ((match spec_find(old(self).current_state@, old(self).client_addr@) {
                    None => true,
                    Some(i) => old(self).current_state@[i].incarnation < u64::MAX,
                }) ==> (match spec_find(final(self).current_state@, old(self).client_addr@) {
                    None => false,
                    Some(i) => final(self).current_state@[i].status == SerfStatus::Up && final(self).current_state@[i].incarnation == final(self).incarnation,
                }))
            }),
    {
        if m.addr == self.client_addr {
            if matches!(m.status, SerfStatus::Up) {
                false
            } else {
                // rise above the claim, the table's own record and the
                // current incarnation, as far as the counter allows
                let claim_floor = if m.incarnation < u64::MAX {
                    m.incarnation + 1
                } else {
                    u64::MAX
                };
                let entry_floor = match self.current_state.find_index(&m.addr) {
                    None => 0,
                    Some(i) => {
                        proof {
                            crate::table::lemma_spec_find(self.current_state@, m@.addr);
                        }
                        let e = self.current_state.members[i].incarnation;
                        if e < u64::MAX {
                            e + 1
                        } else {
                            u64::MAX
                        }
                    },
                };
                let mut bumped = self.incarnation;
                if claim_floor > bumped {
                    bumped = claim_floor;
                }
                if entry_floor > bumped {
                    bumped = entry_floor;
                }
                self.incarnation = bumped;
                let me = self.local_member();
                let ghost mev = me@;
                let mc = me.clone();
                let changed = self.current_state.upsert(me);
                if changed {
                    self.updates_buffer.queue_update(mc);
                }
                proof {
                    let a = old(self).client_addr@;
                    let s0 = old(self).current_state@;
                    let s1 = self.current_state@;
                    crate::table::lemma_spec_find(s0, a);
                    crate::table::lemma_spec_find(s1, a);
                    match spec_find(s0, a) {
                        None => {
                            assert(s1 == s0.push(mev));
                            match spec_find(s1, a) {
                                None => {
                                    assert(s1[s1.len() - 1].addr == a);
                                    assert(false);
                                },
                                Some(j) => {
                                    if j < s0.len() {
                                        assert(s1[j] == s0[j]);
                                        assert(s0[j].addr != a);
                                    }
                                    assert(s1[j] == mev);
                                },
                            }
                        },
                        Some(i) => {
                            if s0[i].incarnation < u64::MAX {
                                assert(mev.incarnation > s0[i].incarnation);
                                assert(crate::member::claim_supersedes(mev, s0[i]));
                                assert(s1 == s0.update(i, mev));
                                match spec_find(s1, a) {
                                    None => {
                                        assert(s1[i].addr == a);
                                        assert(false);
                                    },
                                    Some(j) => {
                                        if j < i {
                                            assert(s1[j] == s0[j]);
                                            assert(s0[j].addr != a);
                                        }
                                        if j > i {
                                            assert(s1[i].addr != a);
                                        }
                                        assert(j == i);
                                        assert(s1[j] == mev);
                                    },
                                }
                            }
                        },
                    }
                }
                changed
            }
        } else {
            let mc = m.clone();
            let changed = self.current_state.upsert(mc);
            if changed {
                self.updates_buffer.queue_update(m);
            }
            changed
        }
    }
}

/// Relies on `rand::random`: an arbitrary draw from the thread-local
/// generator; nothing is promised of the value.
#[verifier::external_body]
fn random_draw() -> u64 {
    rand::random::<u64>()
}

} // verus!
