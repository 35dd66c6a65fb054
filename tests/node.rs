use kad_node::distance::{bucket_index, xor_distance};
use kad_node::node::{classify, Action, Node, Outcome, Source};
use kad_node::provider::ProviderStore;
use kad_node::query::{Query, QueryResult, QueryState, Step};
use kad_node::routing::{Contact, RoutingTable};

const LOCALHOST: u32 = 0x7f00_0001;

fn contact(peer: u64, port: u16) -> Contact {
    Contact { peer, ip: LOCALHOST, port }
}

fn find_node_peers(actions: &[Action]) -> Vec<(u64, u64)> {
    actions
        .iter()
        .filter_map(|a| match a {
            Action::FindNode { peer, target } => Some((*peer, *target)),
            _ => None,
        })
        .collect()
}

#[test]
fn xor_distance_and_buckets() {
    assert_eq!(xor_distance(0b1010, 0b0110), 0b1100);
    assert_eq!(xor_distance(7, 7), 0);
    assert_eq!(bucket_index(0, 0), 0);
    assert_eq!(bucket_index(0, 1), 1);
    assert_eq!(bucket_index(0b1000, 0b1011), 2);
    assert_eq!(bucket_index(0, u64::MAX), 64);
}

#[test]
fn closest_is_sorted_by_distance() {
    let mut t = RoutingTable::new(0, 20);
    for p in [9u64, 3, 12, 5, 1, 30] {
        assert!(t.add_contact(contact(p, 4000)));
    }
    let r = t.closest(4, 10);
    let peers: Vec<u64> = r.iter().map(|c| c.peer).collect();
    assert_eq!(peers, vec![5, 1, 3, 12, 9, 30]);
    let d: Vec<u64> = peers.iter().map(|p| p ^ 4).collect();
    assert!(d.windows(2).all(|w| w[0] < w[1]));
    let top = t.closest(4, 2);
    let peers: Vec<u64> = top.iter().map(|c| c.peer).collect();
    assert_eq!(peers, vec![5, 1]);
    assert!(t.closest(4, 0).is_empty());
}

#[test]
fn closest_on_empty_table_is_empty() {
    let t = RoutingTable::new(42, 20);
    assert!(t.closest(7, 20).is_empty());
}

#[test]
fn bucket_never_exceeds_capacity() {
    let mut t = RoutingTable::new(0, 3);
    // Identifiers 8..16 all fall into bucket 4 as seen from 0.
    let mut accepted = 0;
    for p in 8u64..16 {
        if t.add_contact(contact(p, 5000)) {
            accepted += 1;
        }
    }
    assert_eq!(accepted, 3);
    assert_eq!(t.bucket_size(4), 3);
    assert_eq!(t.len(), 3);
    // Another bucket still has room.
    assert!(t.add_contact(contact(1, 5000)));
    assert_eq!(t.bucket_size(1), 1);
}

#[test]
fn refresh_updates_address_and_local_is_refused() {
    let mut t = RoutingTable::new(0, 1);
    assert!(!t.add_contact(contact(0, 1)));
    assert!(t.add_contact(contact(8, 1)));
    assert!(t.add_contact(contact(8, 2)));
    assert_eq!(t.len(), 1);
    assert_eq!(t.closest(8, 1)[0].port, 2);
    assert!(!t.add_contact(contact(9, 1)));
}

#[test]
fn query_issues_at_most_alpha_and_never_twice() {
    let mut q = Query::new(0, 20, 2);
    let seeds = vec![contact(1, 1), contact(2, 2), contact(3, 3)];
    let first = match q.start(&seeds) {
        Step::Send(v) => v,
        _ => panic!("expected requests"),
    };
    assert_eq!(first, vec![1, 2]);
    assert_eq!(q.state, QueryState::Converging);
    // A response that repeats known peers asks only the one not yet contacted.
    let again = match q.on_response(1, &vec![contact(1, 1), contact(2, 2)]) {
        Step::Send(v) => v,
        _ => panic!("expected requests"),
    };
    assert_eq!(again, vec![3]);
    // An answer from a peer not asked is ignored.
    assert!(matches!(q.on_response(9, &Vec::new()), Step::Ignored));
    // A second answer from the same peer is ignored too.
    assert!(matches!(q.on_response(1, &Vec::new()), Step::Ignored));
    let mut pending = q.pending.clone();
    pending.sort();
    pending.dedup();
    assert_eq!(pending.len(), q.pending.len());
}

#[test]
fn query_completes_when_all_answered() {
    let mut q = Query::new(0, 20, 3);
    let _ = q.start(&vec![contact(4, 1)]);
    match q.on_response(4, &Vec::new()) {
        Step::Done(res) => {
            assert!(!res.timed_out);
            assert_eq!(res.peers.len(), 1);
            assert_eq!(res.peers[0].peer, 4);
        }
        _ => panic!("expected completion"),
    }
    assert_eq!(q.state, QueryState::Completed);
    assert!(matches!(q.on_timeout(), Step::Ignored));
}

#[test]
fn query_timeout_reports_partial_result_once() {
    let mut q = Query::new(0, 20, 1);
    let _ = q.start(&vec![contact(4, 1), contact(6, 1)]);
    match q.on_timeout() {
        Step::Done(res) => {
            assert!(res.timed_out);
            let peers: Vec<u64> = res.peers.iter().map(|c| c.peer).collect();
            assert_eq!(peers, vec![4, 6]);
        }
        _ => panic!("expected a timed-out report"),
    }
    assert_eq!(q.state, QueryState::TimedOut);
    assert!(matches!(q.on_timeout(), Step::Ignored));
    assert!(matches!(q.on_response(4, &Vec::new()), Step::Ignored));
}

#[test]
fn query_result_keeps_k_nearest() {
    let mut q = Query::new(0, 2, 3);
    let _ = q.start(&vec![contact(8, 1)]);
    match q.on_response(8, &vec![contact(1, 1), contact(2, 1), contact(16, 1)]) {
        Step::Send(v) => assert_eq!(v, vec![1, 2]),
        _ => panic!("expected requests"),
    }
    match q.on_response(1, &Vec::new()) {
        Step::Send(v) => assert!(v.is_empty()),
        _ => panic!("expected to wait for the last answer"),
    }
    match q.on_response(2, &Vec::new()) {
        Step::Done(res) => {
            let peers: Vec<u64> = res.peers.iter().map(|c| c.peer).collect();
            assert_eq!(peers, vec![1, 2]);
        }
        _ => panic!("expected completion"),
    }
}

#[test]
fn two_node_bootstrap() {
    let a_id = 0x1000;
    let b_id = 0x2000;
    let mut a = Node::new(a_id, 20, 20, 3);
    let mut b = Node::new(b_id, 20, 20, 3);
    assert!(a.add_address(contact(b_id, 65002)));
    assert!(b.add_address(contact(a_id, 65001)));
    let target = 0x1234_5678;
    let actions = a.get_closest_peers(target);
    assert_eq!(find_node_peers(&actions), vec![(b_id, target)]);
    // B answers from its own table; A drops itself from the answer.
    let answer = b.on_find_node_request(target);
    assert_eq!(answer.len(), 1);
    assert_eq!(answer[0].peer, a_id);
    let done = a.on_find_node_response(b_id, target, &answer);
    assert_eq!(done.len(), 1);
    match &done[0] {
        Action::Finished(res) => {
            assert!(!res.timed_out);
            assert!(res.peers.iter().any(|c| c.peer == b_id));
            assert_eq!(classify(res), Outcome::Found);
        }
        _ => panic!("expected the lookup's report"),
    }
    assert!(a.lookups.is_empty());
}

#[test]
fn one_lookup_per_target() {
    let mut a = Node::new(1, 20, 20, 3);
    a.add_address(contact(2, 1));
    assert_eq!(a.get_closest_peers(77).len(), 1);
    assert!(a.get_closest_peers(77).is_empty());
    assert_eq!(a.lookups.len(), 1);
}

#[test]
fn provider_announcement() {
    let a_id = 10;
    let b_id = 20;
    let mut a = Node::new(a_id, 20, 20, 3);
    let mut b = Node::new(b_id, 20, 20, 3);
    a.add_address(contact(b_id, 2));
    let key = 0xabcd;
    let actions = a.start_providing(key);
    assert_eq!(find_node_peers(&actions), vec![(b_id, key)]);
    assert_eq!(a.on_get_providers(key), vec![a_id]);
    let pushed = a.on_find_node_response(b_id, key, &Vec::new());
    assert_eq!(pushed.len(), 1);
    match pushed[0] {
        Action::AddProvider { peer, key: k } => {
            assert_eq!(peer, b_id);
            assert_eq!(k, key);
            b.on_add_provider(k, a_id);
        }
        _ => panic!("expected ADD_PROVIDER"),
    }
    assert_eq!(b.on_get_providers(key), vec![a_id]);
    assert!(b.on_get_providers(key + 1).is_empty());
}

#[test]
fn timeout_with_empty_table() {
    let mut a = Node::new(5, 20, 20, 3);
    let actions = a.get_closest_peers(99);
    assert_eq!(actions.len(), 1);
    match &actions[0] {
        Action::Finished(res) => {
            assert!(!res.timed_out);
            assert!(res.peers.is_empty());
            assert_eq!(classify(res), Outcome::FoundNone);
        }
        _ => panic!("expected an immediate report"),
    }
    assert!(a.lookups.is_empty());
    assert!(a.on_query_timeout(99).is_empty());
}

#[test]
fn node_timeout_ends_running_lookup() {
    let mut a = Node::new(5, 20, 20, 3);
    a.add_address(contact(6, 1));
    let _ = a.get_closest_peers(99);
    let r = a.on_query_timeout(99);
    assert_eq!(r.len(), 1);
    match &r[0] {
        Action::Finished(res) => {
            assert!(res.timed_out);
            assert_eq!(classify(res), Outcome::TimedOutWithPeers);
        }
        _ => panic!("expected a timed-out report"),
    }
    assert!(a.lookups.is_empty());
}

#[test]
fn rpc_failure_completes_lookup() {
    let mut a = Node::new(5, 20, 20, 3);
    a.add_address(contact(6, 1));
    let _ = a.get_closest_peers(99);
    let r = a.on_rpc_failure(6, 99);
    assert_eq!(r.len(), 1);
    assert!(matches!(&r[0], Action::Finished(res) if !res.timed_out));
}

#[test]
fn classify_all_outcomes() {
    let some = vec![contact(1, 1)];
    let r = |timed_out: bool, peers: Vec<Contact>| QueryResult { target: 0, timed_out, peers };
    assert_eq!(classify(&r(false, some.clone())), Outcome::Found);
    assert_eq!(classify(&r(false, Vec::new())), Outcome::FoundNone);
    assert_eq!(classify(&r(true, some)), Outcome::TimedOutWithPeers);
    assert_eq!(classify(&r(true, Vec::new())), Outcome::TimedOutEmpty);
}

#[test]
fn command_fairness() {
    let mut a = Node::new(1, 20, 20, 3);
    let mut served = Vec::new();
    for _ in 0..6 {
        served.push(a.next_source(true, true).unwrap());
    }
    for w in served.windows(2) {
        assert_ne!(w[0], w[1]);
    }
    assert_eq!(a.next_source(false, true), Some(Source::Command));
    assert_eq!(a.next_source(false, true), Some(Source::Command));
    assert_eq!(a.next_source(true, true), Some(Source::Network));
    assert_eq!(a.next_source(false, false), None);
}

#[test]
fn provider_store_lists_each_once() {
    let mut s = ProviderStore::new();
    s.add_provider(3, 7);
    s.add_provider(3, 7);
    s.add_provider(3, 8);
    s.add_provider(4, 9);
    assert_eq!(s.providers(3), vec![7, 8]);
    assert_eq!(s.providers(4), vec![9]);
    assert_eq!(s.records.len(), 3);
}

#[test]
fn remove_contact_frees_bucket_room() {
    let mut t = RoutingTable::new(0, 1);
    assert!(t.add_contact(contact(8, 1)));
    assert!(!t.add_contact(contact(9, 1)));
    assert!(t.remove_contact(8));
    assert!(!t.remove_contact(8));
    assert_eq!(t.len(), 0);
    assert!(t.add_contact(contact(9, 1)));
    assert_eq!(t.closest(0, 5)[0].peer, 9);
}

#[test]
fn id_from_digest_reads_big_endian_prefix() {
    let d: Vec<u8> = (1u8..=32).collect();
    assert_eq!(kad_node::keys::id_from_digest(&d), 0x0102_0304_0506_0708);
    let d = vec![0xff; 8];
    assert_eq!(kad_node::keys::id_from_digest(&d), u64::MAX);
}

#[test]
fn peer_key_is_leading_bits_of_sha256() {
    // SHA-256 of the empty string starts e3b0c442 98fc1c14.
    assert_eq!(kad_node::keys::peer_key(&Vec::new()), 0xe3b0_c442_98fc_1c14);
    // SHA-256 of "abc" starts ba7816bf 8f01cfea.
    assert_eq!(kad_node::keys::peer_key(&b"abc".to_vec()), 0xba78_16bf_8f01_cfea);
}

#[test]
fn refresh_moves_contact_to_most_recent_end() {
    let mut t = RoutingTable::new(0, 20);
    assert!(t.add_contact(contact(8, 1)));
    assert!(t.add_contact(contact(1, 1)));
    assert!(t.add_contact(contact(8, 9)));
    assert_eq!(t.contacts.len(), 2);
    assert_eq!(t.contacts[0].peer, 1);
    assert_eq!(t.contacts[1].peer, 8);
    assert_eq!(t.contacts[1].port, 9);
}
