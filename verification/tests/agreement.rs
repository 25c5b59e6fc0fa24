//! Clusters of Raft nodes whose messages are lost, delayed and repeated.
use ccdb::codec::{decode, encode};
use ccdb::ids::{LogIndex, NodeId, Seed, Term, Time};
use ccdb::model::{check, ModelConfig, ModelError};
use ccdb::model_steps::{check_invariants, ModelState};
use ccdb::node_set::NodeSet;
use ccdb::raft_node::RaftNode;
use ccdb::membership::ATOMIC_BATCH_FEATURE;
use ccdb::raft_types::{EntryKind, Message, RaftConfig, RaftEffect, Role, TimerKind};

/// Nodes, the messages between them and a clock.
struct Lab {
    nodes: Vec<RaftNode>,
    soup: Vec<Message>,
    now: u64,
    /// The indexes of the reads that were released.
    ready: Vec<LogIndex>,
}

impl Lab {
    fn new(batch: usize) -> Lab {
        let ids = [NodeId::new(1), NodeId::new(2), NodeId::new(3)];
        let config = RaftConfig {
            max_entries_per_append: batch,
            ..RaftConfig::default()
        };
        let mut nodes = Vec::new();
        for id in ids {
            nodes.push(RaftNode::new(id, NodeSet::from_ids(&ids), Seed::new(id.0), config));
        }
        Lab {
            nodes,
            soup: Vec::new(),
            now: 0,
            ready: Vec::new(),
        }
    }

    fn node(&self, id: u64) -> &RaftNode {
        &self.nodes[id as usize - 1]
    }

    fn send(&mut self, effects: Vec<RaftEffect>) {
        for effect in effects {
            match effect {
                RaftEffect::Send(message) => self.soup.push(message),
                RaftEffect::ReadBarrierReady { index } => self.ready.push(index),
                _ => {}
            }
        }
    }

    fn campaign(&mut self, id: u64) {
        self.now += 10_000_000_000;
        let now = Time::from_nanos(self.now);
        let effects = self.nodes[id as usize - 1].on_timer(now, TimerKind::Election);
        self.send(effects);
    }

    fn beat(&mut self, id: u64) {
        let now = Time::from_nanos(self.now);
        let effects = self.nodes[id as usize - 1].on_timer(now, TimerKind::Heartbeat);
        self.send(effects);
    }

    fn propose(&mut self, id: u64, payload: &[u8]) {
        let effects = self.nodes[id as usize - 1]
            .propose(payload.to_vec())
            .expect("a leader takes proposals");
        self.send(effects);
    }

    fn read(&mut self, id: u64) {
        let effects = self.nodes[id as usize - 1]
            .request_read()
            .expect("a leader that has committed takes reads");
        self.send(effects);
    }

    /// Delivers every message between some nodes twice until none is left or
    /// `stop` says so; the others are lost.
    fn deliver(&mut self, among: &[u64], stop: fn(&Lab) -> bool) {
        let mut rounds = 0;
        while !self.soup.is_empty() && !stop(self) {
            rounds += 1;
            assert!(rounds < 10_000, "the messages settle");
            let sent = encode(&self.soup.remove(0)).expect("a message can be written");
            let message = decode(&sent).expect("and is read back");
            if among.contains(&message.from.0) && among.contains(&message.to.0) {
                let at = message.to.0 as usize - 1;
                let now = Time::from_nanos(self.now);
                let effects = self.nodes[at].on_message_at(message.clone(), now);
                self.send(effects);
                if rounds % 3 == 0 {
                    let effects = self.nodes[at].on_message_at(message, now);
                    self.send(effects);
                }
            }
        }
        self.soup.clear();
    }

    /// Whether no two nodes differ in what both have committed.
    fn agrees(&self) -> bool {
        self.nodes.iter().all(|a| {
            self.nodes.iter().all(|b| {
                let shared = a.commit_index.0.min(b.commit_index.0) as usize;
                a.log[..shared] == b.log[..shared]
            })
        })
    }

    fn leaders(&self, term: u64) -> usize {
        self.nodes
            .iter()
            .filter(|node| node.role == Role::Leader && node.hard_state.term.0 == term)
            .count()
    }
}

fn never(_: &Lab) -> bool {
    false
}

fn elected(lab: &Lab, id: u64, term: u64) -> bool {
    lab.node(id).role == Role::Leader && lab.node(id).hard_state.term.0 == term
}

/// The first leader is cut off before it replicates, and the third node, which
/// has heard of its term, leads the next one.
fn contested(batch: usize) -> Lab {
    let mut lab = Lab::new(batch);
    lab.campaign(1);
    lab.deliver(&[1, 2], |lab| elected(lab, 1, 1));
    assert!(elected(&lab, 1, 1));
    lab.beat(1);
    lab.deliver(&[1, 3], |lab| lab.node(3).hard_state.term.0 == 1);
    while !elected(&lab, 3, 2) {
        lab.campaign(3);
        lab.deliver(&[2, 3], |lab| elected(lab, 3, 2));
        assert!(lab.node(3).hard_state.term.0 <= 2 && lab.now < 1_000_000_000_000);
    }
    assert_eq!(lab.leaders(1), 1);
    assert_eq!(lab.leaders(2), 1);
    lab
}

#[test]
fn terms_have_one_leader() {
    let mut lab = contested(1);
    assert!(lab.node(2).log.is_empty());
    lab.campaign(1);
    lab.deliver(&[1, 2], |lab| lab.leaders(3) > 0 || lab.leaders(2) > 1);
    for term in 1..5 {
        assert!(lab.leaders(term) <= 1);
    }
}

#[test]
fn committed_entries_survive_a_replaced_leader() {
    for batch in [1, 2, 64] {
        let mut lab = contested(batch);
        // The first node learns of the second term and campaigns for the third.
        lab.beat(3);
        lab.deliver(&[1, 3], |lab| lab.node(1).hard_state.term.0 == 2);
        while !elected(&lab, 1, 3) {
            lab.campaign(1);
            lab.deliver(&[1, 2], |lab| elected(lab, 1, 3));
            assert!(lab.node(1).hard_state.term.0 <= 3 && lab.now < 1_000_000_000_000);
        }
        for k in 0..5_u8 {
            lab.propose(1, &[k]);
        }
        lab.deliver(&[1, 2], never);
        lab.beat(1);
        lab.deliver(&[1, 2], never);
        assert!(lab.node(1).commit_index.0 >= 6);
        assert_eq!(lab.node(2).commit_index, lab.node(1).commit_index);
        assert!(lab.agrees());
        // The third node still leads its own term with an entry of its own.
        assert!(elected(&lab, 3, 2));
        assert_eq!(lab.node(3).commit_index, LogIndex::new(0));
        lab.beat(1);
        lab.deliver(&[1, 2, 3], never);
        lab.beat(1);
        lab.deliver(&[1, 2, 3], never);
        assert_eq!(lab.node(3).role, Role::Follower);
        assert_eq!(lab.node(3).commit_index, lab.node(1).commit_index);
        assert_eq!(lab.node(3).log, lab.node(1).log);
        assert!(lab.agrees());
    }
}

#[test]
fn a_later_leader_holds_what_is_committed() {
    let mut lab = Lab::new(1);
    lab.campaign(1);
    lab.deliver(&[1, 2, 3], never);
    assert!(elected(&lab, 1, 1));
    for k in 0..4_u8 {
        lab.propose(1, &[k]);
    }
    lab.deliver(&[1, 2], never);
    lab.beat(1);
    lab.deliver(&[1, 2], never);
    let committed = lab.node(1).commit_index.0 as usize;
    assert_eq!(committed, 5);
    let kept = lab.node(1).log[..committed].to_vec();
    // The third node lacks them and is not elected; the second one is.
    lab.campaign(3);
    lab.deliver(&[2, 3], never);
    assert_ne!(lab.node(3).role, Role::Leader);
    while lab.node(2).role != Role::Leader {
        lab.campaign(2);
        lab.deliver(&[2, 3], never);
        assert!(lab.node(2).hard_state.term < Term::new(10));
    }
    assert_eq!(lab.node(2).log[..committed], kept[..]);
    lab.beat(2);
    lab.deliver(&[1, 2, 3], never);
    lab.beat(2);
    lab.deliver(&[1, 2, 3], never);
    for id in 1..4 {
        assert_eq!(lab.node(id).log[..committed], kept[..]);
    }
    assert!(lab.agrees());
}

#[test]
fn only_a_replaced_leader_lacks_what_is_committed() {
    let mut lab = contested(64);
    lab.beat(3);
    lab.deliver(&[1, 3], |lab| lab.node(1).hard_state.term.0 == 2);
    while !elected(&lab, 1, 3) {
        lab.campaign(1);
        lab.deliver(&[1, 2], |lab| elected(lab, 1, 3));
        assert!(lab.now < 1_000_000_000_000);
    }
    lab.beat(1);
    lab.deliver(&[1, 2], never);
    assert_eq!(lab.node(1).log[0].term, Term::new(1));
    assert_eq!(lab.node(1).commit_index, LogIndex::new(2));
    assert!(elected(&lab, 3, 2));
    let mut state = ModelState {
        nodes: lab.nodes,
        soup: Vec::new(),
        leaders_seen: Vec::new(),
        committed: Vec::new(),
    };
    assert_eq!(
        check_invariants(&mut state),
        Err("leader completeness failed at index 1".to_owned())
    );
    // Once it has stepped down, nothing is wrong.
    state.nodes[2].role = Role::Follower;
    state.leaders_seen.clear();
    state.committed.clear();
    assert_eq!(check_invariants(&mut state), Ok(()));
}

#[test]
fn confirmed_reads_miss_nothing() {
    let mut lab = Lab::new(2);
    lab.campaign(1);
    lab.deliver(&[1, 2, 3], never);
    lab.beat(1);
    lab.deliver(&[1, 2, 3], never);
    for k in 0..3_u8 {
        lab.propose(1, &[k]);
    }
    lab.deliver(&[1, 3], never);
    let committed = lab.node(1).commit_index;
    assert_eq!(committed, LogIndex::new(4));
    lab.read(1);
    assert!(lab.ready.is_empty());
    lab.deliver(&[1, 2], never);
    assert_eq!(lab.ready, vec![committed]);
}

#[test]
fn a_replaced_leader_confirms_no_read() {
    let mut lab = Lab::new(64);
    lab.campaign(1);
    lab.deliver(&[1, 2, 3], never);
    lab.beat(1);
    lab.deliver(&[1, 2, 3], never);
    assert!(elected(&lab, 1, 1));
    let seen = lab.node(1).commit_index;
    // The others elect a leader and commit behind its back.
    while !elected(&lab, 2, 2) {
        lab.campaign(2);
        lab.deliver(&[2, 3], |lab| elected(lab, 2, 2));
        assert!(lab.now < 1_000_000_000_000);
    }
    lab.propose(2, b"newer");
    lab.deliver(&[2, 3], never);
    assert!(lab.node(2).commit_index > seen);
    assert!(elected(&lab, 1, 1));
    lab.read(1);
    lab.deliver(&[1, 2, 3], never);
    assert!(lab.ready.is_empty());
    assert_ne!(lab.node(1).role, Role::Leader);
}

#[test]
fn explorations_find_no_conflict() {
    let config = ModelConfig {
        max_log: 2,
        max_term: 2,
        max_messages: 3,
        max_depth: 6,
        max_states: 3_000,
    };
    assert!(!matches!(
        check(config),
        Err(ModelError::Invariant { .. } | ModelError::InvalidConfig)
    ));
}

#[test]
fn activations_commit_on_every_node() {
    let mut lab = Lab::new(64);
    lab.campaign(1);
    lab.deliver(&[1, 2, 3], never);
    assert!(elected(&lab, 1, 1));
    let now = Time::from_nanos(lab.now);
    let effects = lab.nodes[0]
        .activate_feature(ATOMIC_BATCH_FEATURE, now)
        .expect("a leader activates");
    lab.send(effects);
    lab.deliver(&[1, 2, 3], never);
    lab.beat(1);
    lab.deliver(&[1, 2, 3], never);
    for node in &mut lab.nodes {
        assert_eq!(node.commit_index, LogIndex::new(2));
        let entry = node.log[1].clone();
        assert_eq!(entry.kind, EntryKind::ConfigV3);
        assert_eq!(node.active_features(), 0);
        node.apply_committed_config(&entry).expect("the activation applies");
        assert_eq!(node.active_features(), ATOMIC_BATCH_FEATURE);
    }
    let effects = lab.nodes[0]
        .propose_v3_batch(b"batch".to_vec())
        .expect("a batch is proposed");
    lab.send(effects);
    lab.deliver(&[1, 2, 3], never);
    lab.beat(1);
    lab.deliver(&[1, 2, 3], never);
    for id in 1..4 {
        assert_eq!(lab.node(id).commit_index, LogIndex::new(3));
        assert_eq!(lab.node(id).log[2].kind, EntryKind::AppV3);
        assert_eq!(lab.node(id).log[2].payload, b"batch");
    }
}

#[test]
fn changing_voters_elect_one_leader() {
    let mut lab = Lab::new(64);
    lab.campaign(1);
    lab.deliver(&[1, 2, 3], never);
    lab.beat(1);
    lab.deliver(&[1, 2, 3], never);
    assert!(elected(&lab, 1, 1));
    let effects = lab.nodes[0]
        .enter_joint(NodeSet::from_ids(&[NodeId::new(1), NodeId::new(2)]))
        .expect("a leader changes its voters");
    lab.send(effects);
    // The change reaches the second node only, and the third one campaigns with
    // the old voters while the second does with both.
    lab.deliver(&[1, 2], |lab| lab.node(2).log.len() == lab.node(1).log.len());
    assert!(lab.node(2).joint.is_some() && lab.node(3).joint.is_none());
    for round in 0..6_u64 {
        lab.campaign(3 - round % 2);
        lab.deliver(&[2, 3], never);
        for term in 1..12 {
            assert!(lab.leaders(term) <= 1);
        }
    }
    // A majority of the old voters is not one of both sides.
    assert_ne!(lab.node(3).role, Role::Leader);
    assert!(elected(&lab, 1, 1));
    while lab.node(2).role != Role::Leader {
        lab.campaign(2);
        lab.deliver(&[1, 2], never);
        assert!(lab.now < 1_000_000_000_000);
    }
    let term = lab.node(2).hard_state.term.0;
    assert_eq!(lab.leaders(term), 1);
    assert_ne!(lab.node(1).role, Role::Leader);
    assert!(lab.agrees());
}

#[test]
fn learners_and_joint_voters_agree() {
    for batch in [1, 64] {
        let mut lab = Lab::new(batch);
        let voters: Vec<NodeId> = [1, 2, 3].map(NodeId::new).to_vec();
        lab.nodes.push(RaftNode::new(
            NodeId::new(4),
            NodeSet::from_ids(&voters),
            Seed::new(4),
            lab.node(1).config,
        ));
        lab.campaign(1);
        lab.deliver(&[1, 2, 3], never);
        assert!(elected(&lab, 1, 1));
        let effects = lab.nodes[0]
            .add_learner(NodeId::new(4))
            .expect("a leader takes a learner");
        lab.send(effects);
        for k in 0..4_u8 {
            lab.propose(1, &[k]);
        }
        for _ in 0..4 {
            lab.deliver(&[1, 2, 3, 4], never);
            lab.beat(1);
        }
        lab.deliver(&[1, 2, 3, 4], never);
        let joined = lab.node(1).log.len();
        assert_eq!(lab.node(4).log.len(), joined);
        assert_eq!(lab.node(4).commit_index, lab.node(1).commit_index);
        let effects = lab.nodes[0]
            .promote_learner(NodeId::new(4))
            .expect("a caught-up learner is promoted");
        lab.send(effects);
        // The second node misses the change and the writes behind it.
        for k in 4..7_u8 {
            lab.propose(1, &[k]);
        }
        for _ in 0..4 {
            lab.deliver(&[1, 3, 4], never);
            lab.beat(1);
        }
        lab.deliver(&[1, 3, 4], never);
        assert!(lab.node(1).joint.is_some() && lab.node(2).joint.is_none());
        assert!(lab.node(1).commit_index.0 as usize > joined);
        let committed = lab.node(1).commit_index.0 as usize;
        let kept = lab.node(1).log[..committed].to_vec();
        // It is not elected; one that has them is, and tells it.
        lab.campaign(2);
        lab.deliver(&[2, 3, 4], never);
        assert_ne!(lab.node(2).role, Role::Leader);
        while lab.node(3).role != Role::Leader {
            lab.campaign(3);
            lab.deliver(&[2, 3, 4], never);
            assert!(lab.now < 1_000_000_000_000);
        }
        for _ in 0..8 {
            lab.beat(3);
            lab.deliver(&[1, 2, 3, 4], never);
        }
        for id in 1..5 {
            assert_eq!(lab.node(id).log[..committed], kept[..]);
        }
        assert!(lab.agrees());
    }
}
