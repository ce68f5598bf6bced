use badger_chain::keygen::{
    keygen_members, keygen_start, sort_nodes, AckResult, KeyGenState, KeygenStart, PartResult, SyncKeyGenMessage,
};
use badger_chain::peers::Peers;
use hbbft::crypto::SecretKey;
use hbbft::sync_key_gen::SyncKeyGen;
use std::collections::{BTreeMap, VecDeque};

fn dup(m: &SyncKeyGenMessage) -> SyncKeyGenMessage {
    match m {
        SyncKeyGenMessage::Part(p) => SyncKeyGenMessage::Part(p.clone()),
        SyncKeyGenMessage::Ack(s, a) => SyncKeyGenMessage::Ack(*s, a.clone()),
    }
}

fn node(id: u64, sk: SecretKey, pub_keys: &BTreeMap<u64, hbbft::crypto::PublicKey>) -> (KeyGenState, Option<hbbft::sync_key_gen::Part>) {
    let mut rng = rand::rngs::OsRng::new().unwrap();
    let (skg, part) = SyncKeyGen::new(id, sk, pub_keys.clone(), 0, &mut rng).unwrap();
    (KeyGenState::new(skg, false, 0, pub_keys.keys().rev().cloned().collect()), part)
}

#[test]
fn two_nodes_complete_key_generation_in_agreed_order() {
    let (sk1, sk2) = (SecretKey::random(), SecretKey::random());
    let mut pub_keys = BTreeMap::new();
    pub_keys.insert(1u64, sk1.public_key());
    pub_keys.insert(2u64, sk2.public_key());
    let (mut a, part_a) = node(1, sk1, &pub_keys);
    let (mut b, part_b) = node(2, sk2, &pub_keys);
    assert_eq!(a.expected_parts.iter().cloned().collect::<Vec<_>>(), vec![1, 2]);

    // each node handles its own part (and its ack of it) when starting
    let mut rng = rand::rngs::OsRng::new().unwrap();
    let out_a = a.start(1, part_a, &mut rng);
    let out_b = b.start(2, part_b, &mut rng);
    assert!(matches!(out_a.last(), Some(SyncKeyGenMessage::Part(_))));
    assert!(matches!(out_b.last(), Some(SyncKeyGenMessage::Part(_))));
    // node 2's part is out of turn until node 1's part is handled
    assert_eq!(out_b.len(), 1);
    assert_eq!(b.buffered_messages.len(), 1);

    let mut inbox: [VecDeque<(u64, SyncKeyGenMessage)>; 2] = [VecDeque::new(), VecDeque::new()];
    for m in out_a.iter() {
        inbox[1].push_back((1, dup(m)));
    }
    for m in out_b.iter() {
        inbox[0].push_back((2, dup(m)));
    }
    let mut rounds = 0;
    while !(inbox[0].is_empty() && inbox[1].is_empty()) {
        rounds += 1;
        assert!(rounds < 100);
        for (idx, id) in [(0usize, 1u64), (1, 2)] {
            if let Some((from, m)) = inbox[idx].pop_front() {
                let st = if idx == 0 { &mut a } else { &mut b };
                let produced = st.process_message(from, m, &mut rng);
                for p in produced.iter() {
                    assert!(matches!(p, SyncKeyGenMessage::Ack(_, _)));
                    inbox[0].push_back((id, dup(p)));
                    inbox[1].push_back((id, dup(p)));
                }
            }
        }
    }
    assert!(a.is_done);
    assert!(b.is_done);
    assert!(a.expected_parts.is_empty());
    assert!(a.buffered_messages.is_empty());
    assert!(b.buffered_messages.is_empty());
    assert!(a.keygen.is_ready());
    let (pks_a, _) = a.keygen.generate().unwrap();
    let (pks_b, _) = b.keygen.generate().unwrap();
    assert_eq!(pks_a, pks_b);
}

#[test]
fn out_of_turn_sender_is_not_next() {
    let (sk1, sk2) = (SecretKey::random(), SecretKey::random());
    let mut pub_keys = BTreeMap::new();
    pub_keys.insert(1u64, sk1.public_key());
    pub_keys.insert(2u64, sk2.public_key());
    let (a, _) = node(1, sk1, &pub_keys);
    assert!(a.is_next_sender(1));
    assert!(!a.is_next_sender(2));
    assert!(!a.is_done);
}

#[test]
fn nodes_sorted_once() {
    assert_eq!(sort_nodes(vec![3, 1, 3, 2]), vec![1, 2, 3]);
    assert_eq!(sort_nodes(vec![]), Vec::<u64>::new());
}

#[test]
fn members_are_peers_of_authorities() {
    let mut peers = Peers::new();
    peers.update_id(200, 20);
    peers.update_id(300, 30);
    assert_eq!(keygen_members(&vec![30, 10, 20], 10, 100, &peers), vec![300, 100, 200]);
}

#[test]
fn saved_keys_are_used_only_for_their_set() {
    assert_eq!(keygen_start(Some(3), 3), KeygenStart::UseSaved);
    assert_eq!(keygen_start(Some(2), 3), KeygenStart::Regenerate { delete_saved: true });
    assert_eq!(keygen_start(None, 3), KeygenStart::Regenerate { delete_saved: false });
}

#[test]
fn part_and_ack_outcomes_advance_the_schedule() {
    let (sk1, sk2) = (SecretKey::random(), SecretKey::random());
    let mut pub_keys = BTreeMap::new();
    pub_keys.insert(1u64, sk1.public_key());
    pub_keys.insert(2u64, sk2.public_key());
    let (mut a, _) = node(1, sk1, &pub_keys);
    assert!(a.take_part_outcome(1, PartResult::Invalid).is_empty());
    assert!(a.take_part_outcome(1, PartResult::Failed).is_empty());
    assert_eq!(a.expected_parts.iter().cloned().collect::<Vec<_>>(), vec![1, 2]);
    assert!(a.take_part_outcome(1, PartResult::Valid(None)).is_empty());
    assert_eq!(a.expected_parts.iter().cloned().collect::<Vec<_>>(), vec![2]);

    let before: Vec<(u64, Vec<u64>)> = a.expected_acks.iter().map(|(s, r)| (*s, r.iter().cloned().collect())).collect();
    assert_eq!(before, vec![(1, vec![1, 2]), (2, vec![1, 2])]);
    a.take_ack_outcome(AckResult::Invalid);
    assert_eq!(a.expected_acks.len(), 2);
    a.take_ack_outcome(AckResult::Valid);
    a.take_ack_outcome(AckResult::Valid);
    a.take_ack_outcome(AckResult::Valid);
    assert!(!a.is_done);
    let left: Vec<(u64, Vec<u64>)> = a.expected_acks.iter().map(|(s, r)| (*s, r.iter().cloned().collect())).collect();
    assert_eq!(left, vec![(2, vec![2])]);
    a.take_ack_outcome(AckResult::Valid);
    assert!(a.expected_acks.is_empty());
    assert!(a.is_done);
}
