use pirc_server::raft::peer_map::{identify_peer, PeerMap};
use pirc_server::raft::types::NodeId;

#[test]
fn peer_map_lookup() {
    let addr1: String = "10.0.0.1:7000".into();
    let addr2: String = "10.0.0.2:7000".into();
    let map = PeerMap::new(vec![(NodeId::new(1), addr1.clone()), (NodeId::new(2), addr2.clone())]);

    assert_eq!(map.get(NodeId::new(1)), Some(&addr1));
    assert_eq!(map.get(NodeId::new(2)), Some(&addr2));
    assert_eq!(map.get(NodeId::new(3)), None);
}

#[test]
fn peer_map_node_ids() {
    let map = PeerMap::new(vec![
        (NodeId::new(1), "10.0.0.1:7000".into()),
        (NodeId::new(2), "10.0.0.2:7000".into()),
    ]);
    let mut ids: Vec<_> = map.node_ids();
    ids.sort();
    assert_eq!(ids, vec![NodeId::new(1), NodeId::new(2)]);
}

#[test]
fn peer_map_insert() {
    let mut map = PeerMap::new(vec![]);
    assert!(map.is_empty());

    let addr: String = "10.0.0.1:7000".into();
    assert!(map.insert(NodeId::new(1), addr.clone()).is_none());
    assert_eq!(map.len(), 1);
    assert_eq!(map.get(NodeId::new(1)), Some(&addr));

    // Inserting same key with different address returns old address.
    let addr2: String = "10.0.0.1:8000".into();
    assert_eq!(map.insert(NodeId::new(1), addr2.clone()), Some(addr));
    assert_eq!(map.get(NodeId::new(1)), Some(&addr2));
    assert_eq!(map.len(), 1);
}

#[test]
fn peer_map_remove() {
    let addr: String = "10.0.0.1:7000".into();
    let mut map = PeerMap::new(vec![(NodeId::new(1), addr.clone())]);
    assert_eq!(map.len(), 1);

    assert_eq!(map.remove(NodeId::new(1)), Some(addr));
    assert!(map.is_empty());
    assert_eq!(map.get(NodeId::new(1)), None);

    // Removing non-existent key returns None.
    assert_eq!(map.remove(NodeId::new(99)), None);
}

#[test]
fn peer_map_len_and_is_empty() {
    let mut map = PeerMap::new(vec![]);
    assert!(map.is_empty());
    assert_eq!(map.len(), 0);

    map.insert(NodeId::new(1), "10.0.0.1:7000".into());
    assert!(!map.is_empty());
    assert_eq!(map.len(), 1);

    map.insert(NodeId::new(2), "10.0.0.2:7000".into());
    assert_eq!(map.len(), 2);
}

#[test]
fn peer_map_later_entry_wins_and_clone_keeps_all() {
    let map = PeerMap::new(vec![
        (NodeId::new(1), "a:1".into()),
        (NodeId::new(1), "b:2".into()),
        (NodeId::new(3), "c:3".into()),
    ]);
    assert_eq!(map.len(), 2);
    assert_eq!(map.get(NodeId::new(1)), Some(&"b:2".to_string()));
    let copy = map.clone();
    let mut entries = copy.entries();
    entries.sort();
    assert_eq!(entries, vec![(NodeId::new(1), "b:2".to_string()), (NodeId::new(3), "c:3".to_string())]);
}

#[test]
fn identify_peer_takes_first_with_same_ip_else_ipv4_number() {
    let ids = vec![NodeId::new(2), NodeId::new(3), NodeId::new(4)];
    assert_eq!(identify_peer(&ids, &[false, true, true], Some(7)), NodeId::new(3));
    let v4: u32 = (10 << 24) | 9;
    assert_eq!(identify_peer(&ids, &[false, false, false], Some(v4)), NodeId::new(u64::from(v4)));
    assert_eq!(identify_peer(&ids, &[false, false, false], None), NodeId::new(0));
}
