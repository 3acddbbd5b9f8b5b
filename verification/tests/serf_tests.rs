use serf::engine::Outgoing;
use serf::engine::SerfClient;
use serf::gossip::PIGGYBACK_MAX;
use serf::gossip::RETRANSMIT_LIMIT;
use serf::gossip::UpdateQueue;
use serf::member::SerfMember;
use serf::member::SerfStatus;
use serf::table::SerfState;
use serf::wire::decode_msg;
use serf::wire::encode_msg;
use serf::wire::SerfMessage;
use serf::wire::SerfMessageType;
use serf::SerfMemberBuilder;

fn member(addr: &str, status: SerfStatus, incarnation: u64) -> SerfMember {
    SerfMember {
        addr: addr.to_string(),
        status,
        incarnation,
        labels: Vec::new(),
    }
}

fn member_with_labels(
    addr: &str,
    status: SerfStatus,
    incarnation: u64,
    labels: Vec<(String, String)>,
) -> SerfMember {
    SerfMember {
        addr: addr.to_string(),
        status,
        incarnation,
        labels,
    }
}

fn assert_member_eq(a: &SerfMember, b: &SerfMember) {
    assert_eq!(a.addr, b.addr);
    assert_eq!(a.status, b.status);
    assert_eq!(a.incarnation, b.incarnation);
    assert_eq!(a.labels, b.labels);
}

fn client(addr: &str) -> SerfClient {
    let mut b = SerfClient::builder();
    b.with_client_addr(addr.to_string());
    b.build().expect("build never fails")
}

fn status_of(c: &SerfClient, addr: &str) -> Option<SerfStatus> {
    c.current_state
        .members
        .iter()
        .find(|m| m.addr == addr)
        .map(|m| m.status)
}

// --- codec ---

#[test]
fn round_trip_ping() {
    let msg = SerfMessage {
        msg_num: 42,
        msg_type: SerfMessageType::Ping("10.0.0.1:9120".to_string()),
        updates: vec![member("10.0.0.2:9120", SerfStatus::Suspect, 7)],
    };
    let bytes = encode_msg(&msg);
    let back = decode_msg(&bytes).expect("well-formed message decodes");
    assert_eq!(back.msg_num, 42);
    match &back.msg_type {
        SerfMessageType::Ping(a) => assert_eq!(a, "10.0.0.1:9120"),
        _ => panic!("wrong payload"),
    }
    assert_eq!(back.updates.len(), 1);
    assert_member_eq(&back.updates[0], &msg.updates[0]);
}

#[test]
fn round_trip_ack() {
    let msg = SerfMessage {
        msg_num: u64::MAX,
        msg_type: SerfMessageType::Ack(String::new()),
        updates: Vec::new(),
    };
    let bytes = encode_msg(&msg);
    let back = decode_msg(&bytes).expect("well-formed message decodes");
    assert_eq!(back.msg_num, u64::MAX);
    match &back.msg_type {
        SerfMessageType::Ack(a) => assert_eq!(a, ""),
        _ => panic!("wrong payload"),
    }
    assert!(back.updates.is_empty());
}

#[test]
fn round_trip_join_with_labels_and_unicode() {
    let labels = vec![
        ("rôle".to_string(), "wörker".to_string()),
        ("zone".to_string(), "東京".to_string()),
    ];
    let m = member_with_labels("héllo:1", SerfStatus::Down, 3, labels);
    let msg = SerfMessage {
        msg_num: 7,
        msg_type: SerfMessageType::Join(m),
        updates: vec![
            member("a:1", SerfStatus::Up, 1),
            member("b:2", SerfStatus::Suspect, 2),
        ],
    };
    let bytes = encode_msg(&msg);
    let back = decode_msg(&bytes).expect("well-formed message decodes");
    match (&back.msg_type, &msg.msg_type) {
        (SerfMessageType::Join(x), SerfMessageType::Join(y)) => assert_member_eq(x, y),
        _ => panic!("wrong payload"),
    }
    assert_eq!(back.updates.len(), 2);
    assert_member_eq(&back.updates[0], &msg.updates[0]);
    assert_member_eq(&back.updates[1], &msg.updates[1]);
}

#[test]
fn decode_rejects_truncated_input() {
    let msg = SerfMessage {
        msg_num: 1,
        msg_type: SerfMessageType::Ping("a:1".to_string()),
        updates: Vec::new(),
    };
    let bytes = encode_msg(&msg);
    for cut in 0..bytes.len() {
        let shorter: Vec<u8> = bytes[..cut].to_vec();
        assert!(decode_msg(&shorter).is_err(), "cut at {cut} must fail");
    }
}

#[test]
fn decode_rejects_unknown_tag() {
    let msg = SerfMessage {
        msg_num: 1,
        msg_type: SerfMessageType::Ping("a:1".to_string()),
        updates: Vec::new(),
    };
    let mut bytes = encode_msg(&msg);
    bytes[8] = 9; // tag byte
    assert!(decode_msg(&bytes).is_err());
}

#[test]
fn decode_rejects_invalid_utf8() {
    let msg = SerfMessage {
        msg_num: 1,
        msg_type: SerfMessageType::Ping("ab".to_string()),
        updates: Vec::new(),
    };
    let mut bytes = encode_msg(&msg);
    // the two payload bytes sit right after the tag and the length field
    bytes[13] = 0xff;
    bytes[14] = 0xfe;
    assert!(decode_msg(&bytes).is_err());
}

#[test]
fn decode_ignores_trailing_bytes() {
    let msg = SerfMessage {
        msg_num: 5,
        msg_type: SerfMessageType::Ack("a:1".to_string()),
        updates: Vec::new(),
    };
    let mut bytes = encode_msg(&msg);
    bytes.extend_from_slice(&[0u8; 32]);
    let back = decode_msg(&bytes).expect("padding after the message is ignored");
    assert_eq!(back.msg_num, 5);
}

// --- membership table ---

#[test]
fn upsert_inserts_unknown_address() {
    let mut t = SerfState::new();
    assert!(t.upsert(member("a:1", SerfStatus::Up, 1)));
    assert_eq!(t.members.len(), 1);
    assert_eq!(status_table(&t, "a:1"), Some(SerfStatus::Up));
}

fn status_table(t: &SerfState, addr: &str) -> Option<SerfStatus> {
    t.members.iter().find(|m| m.addr == addr).map(|m| m.status)
}

fn incarnation_table(t: &SerfState, addr: &str) -> Option<u64> {
    t.members
        .iter()
        .find(|m| m.addr == addr)
        .map(|m| m.incarnation)
}

#[test]
fn upsert_higher_incarnation_wins_outright() {
    let mut t = SerfState::new();
    t.upsert(member("a:1", SerfStatus::Up, 5));
    // even a Down claim overrides a lower-incarnation Up claim
    assert!(t.upsert(member("a:1", SerfStatus::Down, 6)));
    assert_eq!(status_table(&t, "a:1"), Some(SerfStatus::Down));
    assert_eq!(incarnation_table(&t, "a:1"), Some(6));
}

#[test]
fn upsert_equal_incarnation_only_upgrades() {
    let mut t = SerfState::new();
    t.upsert(member("a:1", SerfStatus::Suspect, 5));
    // Down beats Suspect at the same incarnation
    assert!(t.upsert(member("a:1", SerfStatus::Down, 5)));
    assert_eq!(status_table(&t, "a:1"), Some(SerfStatus::Down));
    // an Up claim at the same incarnation does not resurrect a Down member
    assert!(!t.upsert(member("a:1", SerfStatus::Up, 5)));
    assert_eq!(status_table(&t, "a:1"), Some(SerfStatus::Down));
}

#[test]
fn upsert_stale_claim_is_ignored() {
    let mut t = SerfState::new();
    t.upsert(member("a:1", SerfStatus::Up, 5));
    assert!(!t.upsert(member("a:1", SerfStatus::Down, 4)));
    assert_eq!(status_table(&t, "a:1"), Some(SerfStatus::Up));
    assert_eq!(incarnation_table(&t, "a:1"), Some(5));
}

#[test]
fn upsert_same_incarnation_up_refutes_suspect() {
    let mut t = SerfState::new();
    t.upsert(member("a:1", SerfStatus::Suspect, 5));
    // a refutation: the same incarnation announced Up again
    assert!(t.upsert(member("a:1", SerfStatus::Up, 5)));
    assert_eq!(status_table(&t, "a:1"), Some(SerfStatus::Up));
}

#[test]
fn mark_suspect_and_dead_follow_the_forward_path() {
    let mut t = SerfState::new();
    t.upsert(member("a:1", SerfStatus::Up, 1));
    t.mark_suspect(&"a:1".to_string());
    assert_eq!(status_table(&t, "a:1"), Some(SerfStatus::Suspect));
    // marking an unknown member is a no-op
    t.mark_suspect(&"nobody".to_string());
    t.mark_dead(&"nobody".to_string());
    assert_eq!(t.members.len(), 1);
    t.mark_dead(&"a:1".to_string());
    assert_eq!(status_table(&t, "a:1"), Some(SerfStatus::Down));
    // dead members stay dead under both marks
    t.mark_suspect(&"a:1".to_string());
    t.mark_dead(&"a:1".to_string());
    assert_eq!(status_table(&t, "a:1"), Some(SerfStatus::Down));
}

#[test]
fn probe_target_is_deterministic_in_the_draw() {
    let mut t = SerfState::new();
    t.upsert(member("me:1", SerfStatus::Up, 1));
    t.upsert(member("b:1", SerfStatus::Up, 1));
    t.upsert(member("c:1", SerfStatus::Suspect, 1));
    t.upsert(member("d:1", SerfStatus::Up, 1));
    let me = "me:1".to_string();
    // eligible, in table order: b:1, d:1
    assert_eq!(t.random_probe_target(&me, 0), Some("b:1".to_string()));
    assert_eq!(t.random_probe_target(&me, 1), Some("d:1".to_string()));
    assert_eq!(t.random_probe_target(&me, 2), Some("b:1".to_string()));
}

#[test]
fn probe_target_none_without_eligible_members() {
    let mut t = SerfState::new();
    let me = "me:1".to_string();
    assert_eq!(t.random_probe_target(&me, 3), None);
    t.upsert(member("me:1", SerfStatus::Up, 1));
    t.upsert(member("b:1", SerfStatus::Down, 1));
    assert_eq!(t.random_probe_target(&me, 3), None);
}

#[test]
fn snapshot_copies_the_table() {
    let mut t = SerfState::new();
    t.upsert(member("a:1", SerfStatus::Up, 1));
    t.upsert(member("b:1", SerfStatus::Suspect, 2));
    let snap = t.snapshot();
    assert_eq!(snap.len(), 2);
    assert_member_eq(&snap[0], &t.members[0]);
    assert_member_eq(&snap[1], &t.members[1]);
}

// --- dissemination ---

#[test]
fn piggyback_respects_the_fan_bound() {
    let mut q = UpdateQueue::new();
    for i in 0..10u64 {
        q.queue_update(member(&format!("m{i}:1"), SerfStatus::Up, i));
    }
    let sent = q.take_piggyback();
    assert_eq!(sent.len(), PIGGYBACK_MAX);
    // most recently changed first
    assert_eq!(sent[0].addr, "m9:1");
}

#[test]
fn update_is_retransmitted_at_most_the_limit() {
    let mut q = UpdateQueue::new();
    q.queue_update(member("a:1", SerfStatus::Suspect, 2));
    let mut times_seen = 0u32;
    for _ in 0..(RETRANSMIT_LIMIT + 3) {
        let sent = q.take_piggyback();
        times_seen += sent.iter().filter(|m| m.addr == "a:1").count() as u32;
    }
    assert_eq!(times_seen, RETRANSMIT_LIMIT);
    assert!(q.entries.is_empty());
}

#[test]
fn requeue_replaces_the_old_update() {
    let mut q = UpdateQueue::new();
    q.queue_update(member("a:1", SerfStatus::Up, 1));
    q.queue_update(member("b:1", SerfStatus::Up, 1));
    q.queue_update(member("a:1", SerfStatus::Suspect, 1));
    assert_eq!(q.entries.len(), 2);
    assert_eq!(q.entries[0].member.addr, "a:1");
    assert_eq!(q.entries[0].member.status, SerfStatus::Suspect);
    assert_eq!(q.entries[0].transmits_left, RETRANSMIT_LIMIT);
}

// --- builder ---

#[test]
fn builder_defaults_and_setters() {
    let b = SerfMemberBuilder::new();
    assert_eq!(b.udp_port, 9120);
    assert_eq!(b.client_addr, "127.0.0.1");
    assert!(b.start_join.is_empty());
    assert!(b.labels.is_empty());

    let mut b = SerfClient::builder();
    b.with_udp_port(7000)
        .with_client_addr("10.0.0.1".to_string())
        .with_start_join(vec!["10.0.0.2:7000".to_string()])
        .with_labels(vec![("dc".to_string(), "eu".to_string())]);
    let c = b.build().expect("build never fails");
    assert_eq!(c.udp_port, 7000);
    assert_eq!(c.client_addr, "10.0.0.1");
    assert_eq!(c.start_join, vec!["10.0.0.2:7000".to_string()]);
    assert_eq!(c.labels, vec![("dc".to_string(), "eu".to_string())]);
    assert_eq!(c.incarnation, 1);
    assert!(c.current_state.members.is_empty());
}

#[test]
fn bootstrap_joins_every_seed() {
    let mut c = client("a:1");
    c.start_join = vec!["s1:1".to_string(), "s2:1".to_string()];
    let out = c.bootstrap();
    assert_eq!(out.len(), 2);
    assert_eq!(out[0].dest, "s1:1");
    assert_eq!(out[1].dest, "s2:1");
    for o in &out {
        match &o.msg.msg_type {
            SerfMessageType::Join(m) => {
                assert_eq!(m.addr, "a:1");
                assert_eq!(m.status, SerfStatus::Up);
            }
            _ => panic!("bootstrap sends Join messages"),
        }
    }
    assert_eq!(status_of(&c, "a:1"), Some(SerfStatus::Up));
}

// --- coordinator dispatch ---

#[test]
fn ping_is_answered_with_a_matching_ack() {
    let mut c = client("a:1");
    let r = c.handle_ping_msg("b:1".to_string(), 99);
    assert_eq!(r.dest, "b:1");
    assert_eq!(r.msg.msg_num, 99);
    match &r.msg.msg_type {
        SerfMessageType::Ack(addr) => assert_eq!(addr, "a:1"),
        _ => panic!("a ping is answered with an ack"),
    }
}

#[test]
fn join_updates_the_table_and_replies_with_the_snapshot() {
    // A is a seed with only itself in its table; B joins.
    let mut a = client("a:1");
    a.bootstrap();
    let reply = a.handle_join_msg("b:1".to_string(), member("b:1", SerfStatus::Up, 1));
    assert_eq!(status_of(&a, "a:1"), Some(SerfStatus::Up));
    assert_eq!(status_of(&a, "b:1"), Some(SerfStatus::Up));
    assert_eq!(reply.dest, "b:1");
    match &reply.msg.msg_type {
        SerfMessageType::Join(m) => assert_eq!(m.addr, "a:1"),
        _ => panic!("a join is answered with a join"),
    }
    // the reply snapshot carries the full table
    assert_eq!(reply.msg.updates.len(), 2);

    // B processes the reply and converges to {A: Up, B: Up}
    let mut b = client("b:1");
    b.bootstrap();
    for u in &reply.msg.updates {
        b.apply_update(u.clone());
    }
    match &reply.msg.msg_type {
        SerfMessageType::Join(m) => {
            // every join is answered, even one that taught B nothing
            let back = b.handle_join_msg("a:1".to_string(), m.clone());
            assert_eq!(back.dest, "a:1");
            assert!(matches!(back.msg.msg_type, SerfMessageType::Join(_)));
        }
        _ => unreachable!(),
    }
    assert_eq!(status_of(&b, "a:1"), Some(SerfStatus::Up));
    assert_eq!(status_of(&b, "b:1"), Some(SerfStatus::Up));
}

#[test]
fn probe_timeout_suspects_then_suspicion_timeout_kills() {
    // A pings B, no ack ever arrives: B turns Suspect, then Down.
    let mut a = client("a:1");
    a.bootstrap();
    a.handle_join_msg("b:1".to_string(), member("b:1", SerfStatus::Up, 1));
    let out = a.send_probe_with(0, 0).expect("b:1 is eligible");
    assert_eq!(out.dest, "b:1");
    match &out.msg.msg_type {
        SerfMessageType::Ping(addr) => assert_eq!(addr, "a:1"),
        _ => panic!("a probe is a ping"),
    }
    // before the deadline nothing happens
    assert_eq!(a.expire_probe(100), None);
    assert_eq!(status_of(&a, "b:1"), Some(SerfStatus::Up));
    // the deadline passes without an ack: Alive -> Suspect, never straight to Down
    let suspected = a.expire_probe(250);
    assert_eq!(suspected, Some("b:1".to_string()));
    assert_eq!(status_of(&a, "b:1"), Some(SerfStatus::Suspect));
    // before the suspicion deadline nothing happens
    let died = a.expire_suspicions(1000);
    assert!(died.is_empty());
    assert_eq!(status_of(&a, "b:1"), Some(SerfStatus::Suspect));
    // the suspicion window elapses with no refutation: Suspect -> Down
    let died = a.expire_suspicions(2250);
    assert_eq!(died, vec!["b:1".to_string()]);
    assert_eq!(status_of(&a, "b:1"), Some(SerfStatus::Down));
    // the tombstone is retained for a while, then evicted
    a.evict_tombstones(3000);
    assert_eq!(status_of(&a, "b:1"), Some(SerfStatus::Down));
    a.evict_tombstones(2250 + 10000);
    assert_eq!(status_of(&a, "b:1"), None);
}

#[test]
fn ack_before_suspicion_deadline_recovers_the_member() {
    // recovery: Suspect -> Up on a qualifying ack within the window
    let mut a = client("a:1");
    a.bootstrap();
    a.handle_join_msg("b:1".to_string(), member("b:1", SerfStatus::Up, 1));
    let out = a.send_probe_with(0, 0).expect("b:1 is eligible");
    let seq = out.msg.msg_num;
    a.expire_probe(250);
    assert_eq!(status_of(&a, "b:1"), Some(SerfStatus::Suspect));
    // the ack arrives late but within the suspicion window
    a.handle_ack_msg("b:1".to_string(), seq);
    assert_eq!(status_of(&a, "b:1"), Some(SerfStatus::Up));
    // the suspicion timer was withdrawn: no death follows
    let died = a.expire_suspicions(10_000);
    assert!(died.is_empty());
    assert_eq!(status_of(&a, "b:1"), Some(SerfStatus::Up));
}

#[test]
fn matching_ack_clears_the_pending_probe() {
    let mut a = client("a:1");
    a.bootstrap();
    a.handle_join_msg("b:1".to_string(), member("b:1", SerfStatus::Up, 1));
    let out = a.send_probe_with(0, 0).expect("b:1 is eligible");
    // an ack with the wrong sequence number does not clear the probe
    a.handle_ack_msg("b:1".to_string(), out.msg.msg_num.wrapping_add(1));
    assert!(a.pending_probe.is_some());
    a.handle_ack_msg("b:1".to_string(), out.msg.msg_num);
    assert!(a.pending_probe.is_none());
}

#[test]
fn a_suspect_claim_about_the_local_agent_is_refuted() {
    let mut a = client("a:1");
    a.bootstrap();
    let before = a.incarnation;
    a.apply_update(member("a:1", SerfStatus::Suspect, before));
    assert!(a.incarnation > before);
    assert_eq!(status_of(&a, "a:1"), Some(SerfStatus::Up));
}

#[test]
fn three_agents_converge() {
    // convergence in miniature: three agents, one seed, and every
    // table fills up through join replies and piggybacked acks.
    let mut a = client("a:1");
    let mut b = client("b:1");
    let mut c = client("c:1");
    a.bootstrap();
    b.start_join = vec!["a:1".to_string()];
    c.start_join = vec!["a:1".to_string()];
    let b_join = b.bootstrap();
    let c_join = c.bootstrap();

    // A handles both joins and replies with snapshots
    let join_member = |o: &Outgoing| match &o.msg.msg_type {
        SerfMessageType::Join(m) => m.clone(),
        _ => panic!("bootstrap sends joins"),
    };
    let reply_b = a.handle_join_msg("b:1".to_string(), join_member(&b_join[0]));
    let reply_c = a.handle_join_msg("c:1".to_string(), join_member(&c_join[0]));

    // each reply's snapshot is applied by its receiver
    for u in &reply_b.msg.updates {
        b.apply_update(u.clone());
    }
    for u in &reply_c.msg.updates {
        c.apply_update(u.clone());
    }

    // C already sees everyone (its snapshot included B); B probes A and
    // learns of C from the ack's piggyback.
    let ping = b.send_probe_with(0, 0).expect("a:1 is eligible");
    assert_eq!(ping.dest, "a:1");
    let ack = a.handle_ping_msg("b:1".to_string(), ping.msg.msg_num);
    for u in &ack.msg.updates {
        b.apply_update(u.clone());
    }
    b.handle_ack_msg("a:1".to_string(), ack.msg.msg_num);

    for agent in [&a, &b, &c] {
        for addr in ["a:1", "b:1", "c:1"] {
            assert_eq!(
                status_of(agent, addr),
                Some(SerfStatus::Up),
                "agent {} should see {} as Up",
                agent.client_addr,
                addr
            );
        }
    }
}

#[test]
fn a_join_naming_the_local_agent_down_is_refuted() {
    let mut a = client("a:1");
    a.bootstrap();
    let reply = a.handle_join_msg("b:1".to_string(), member("a:1", SerfStatus::Down, 5));
    // the claim is refuted: the local agent re-announces itself as Up
    // with an incarnation above the claim's
    assert_eq!(status_of(&a, "a:1"), Some(SerfStatus::Up));
    assert!(a.incarnation > 5);
    match &reply.msg.msg_type {
        SerfMessageType::Join(m) => {
            assert_eq!(m.addr, "a:1");
            assert_eq!(m.status, SerfStatus::Up);
            assert_eq!(m.incarnation, a.incarnation);
        }
        _ => panic!("a join is answered with a join"),
    }
}

#[test]
fn cluster_converges_over_probe_rounds() {
    // a whole-cluster run in miniature: four agents, one seed, a
    // synchronous network, deterministic draws; after a few probe
    // intervals every table holds every member as Up.
    let names = ["a:1", "b:1", "c:1", "d:1"];
    let mut agents: Vec<SerfClient> = names.iter().map(|n| client(n)).collect();
    for agent in agents.iter_mut().skip(1) {
        agent.start_join = vec!["a:1".to_string()];
    }
    // (sender, outgoing) pairs in flight
    let mut in_flight: Vec<(String, Outgoing)> = Vec::new();
    for agent in agents.iter_mut() {
        let sender = agent.client_addr.clone();
        for o in agent.bootstrap() {
            in_flight.push((sender.clone(), o));
        }
    }
    let mut now: u64 = 0;
    for round in 0..12u64 {
        // deliver the messages currently in flight and then their
        // direct replies, so an ack reaches its prober before the next
        // tick; replies to replies wait for the next round (every join
        // is answered, so a full drain would never end)
        for _phase in 0..2 {
        let batch = std::mem::take(&mut in_flight);
        for (sender, o) in batch {
            let idx = names
                .iter()
                .position(|n| *n == o.dest)
                .expect("messages go to known agents");
            let agent = &mut agents[idx];
            let from = agent.client_addr.clone();
            let msg_num = o.msg.msg_num;
            for u in o.msg.updates {
                agent.apply_update(u);
            }
            match o.msg.msg_type {
                SerfMessageType::Ping(_) => {
                    let reply = agent.handle_ping_msg(sender, msg_num);
                    in_flight.push((from, reply));
                }
                SerfMessageType::Ack(_) => {
                    agent.handle_ack_msg(sender, msg_num);
                }
                SerfMessageType::Join(m) => {
                    let reply = agent.handle_join_msg(sender, m);
                    in_flight.push((from, reply));
                }
            }
        }
        }
        for agent in agents.iter_mut() {
            agent.expire_probe(now);
            agent.expire_suspicions(now);
            agent.evict_tombstones(now);
            let sender = agent.client_addr.clone();
            if let Some(ping) = agent.send_probe_with(now, round) {
                in_flight.push((sender, ping));
            }
        }
        now += 500;
    }
    for agent in &agents {
        for addr in names {
            assert_eq!(
                status_of(agent, addr),
                Some(SerfStatus::Up),
                "agent {} should see {} as Up",
                agent.client_addr,
                addr
            );
        }
    }
}
